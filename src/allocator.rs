//! The shard directory and first-fit allocation of chunks to shards.
use vstd::prelude::*;
use crate::config::MAX_SIZE_PER_REPO;
use crate::naming::{shard_name, shard_name_spec};

verus! {

/// One shard and the bytes reserved in it.
#[derive(Clone, Debug)]
pub struct RepoInfo {
    pub name: String,
    pub current_size: u64,
}

/// The global shard directory: the counter that names new shards, and every shard, in scan
/// order.
#[derive(Clone, Debug)]
pub struct ReposMetadata {
    pub next_id: usize,
    pub repos: Vec<RepoInfo>,
}

/// What a shard is, as the allocator sees it.
pub struct RepoView {
    pub name: Seq<char>,
    pub current_size: nat,
}

/// What the shard directory is, as the allocator sees it.
pub struct DirectoryView {
    pub next_id: nat,
    pub repos: Seq<RepoView>,
}

impl View for RepoInfo {
    type V = RepoView;

    open spec fn view(&self) -> RepoView {
        RepoView { name: self.name@, current_size: self.current_size as nat }
    }
}

impl View for ReposMetadata {
    type V = DirectoryView;

    open spec fn view(&self) -> DirectoryView {
        DirectoryView { next_id: self.next_id as nat, repos: self.repos@.map_values(|r: RepoInfo| r@) }
    }
}

/// `a` sorts before `b` when both are compared from position `i` on, character by character.
pub open spec fn name_lt_from(a: Seq<char>, b: Seq<char>, i: int) -> bool
    decreases a.len() - i,
{
    if i < 0 || i >= a.len() {
        0 <= i < b.len()
    } else if i >= b.len() {
        false
    } else if a[i] != b[i] {
        a[i] < b[i]
    } else {
        name_lt_from(a, b, i + 1)
    }
}

/// `a` sorts before `b` in the order of `String`'s `Ord`: lexicographic by code point, a
/// proper prefix first.
pub open spec fn name_lt(a: Seq<char>, b: Seq<char>) -> bool {
    name_lt_from(a, b, 0)
}

/// No shard is filled past capacity, no two shards share a name, and the shards are held in
/// ascending name order, which is the order in which they are scanned.
pub open spec fn directory_wf(d: DirectoryView) -> bool {
    &&& forall|i: int| 0 <= i < d.repos.len() ==> #[trigger] d.repos[i].current_size <= MAX_SIZE_PER_REPO
    &&& forall|i: int, j: int| 0 <= i < d.repos.len() && 0 <= j < d.repos.len() && i != j
        ==> #[trigger] d.repos[i].name != #[trigger] d.repos[j].name
    &&& forall|i: int, j: int| 0 <= i < j < d.repos.len() ==> #[trigger] name_lt(d.repos[i].name, d.repos[j].name)
}

proof fn lemma_name_lt_irreflexive(a: Seq<char>, i: int)
    requires
        0 <= i,
    ensures
        !name_lt_from(a, a, i),
    decreases a.len() - i,
{
    if i < a.len() {
        lemma_name_lt_irreflexive(a, i + 1);
    }
}

proof fn lemma_name_lt_transitive(a: Seq<char>, b: Seq<char>, c: Seq<char>, i: int)
    requires
        0 <= i,
        name_lt_from(a, b, i),
        name_lt_from(b, c, i),
    ensures
        name_lt_from(a, c, i),
    decreases a.len() - i,
{
    if i < a.len() && i < b.len() && i < c.len() && a[i] == b[i] && b[i] == c[i] {
        lemma_name_lt_transitive(a, b, c, i + 1);
    }
}

proof fn lemma_name_lt_total(a: Seq<char>, b: Seq<char>, i: int)
    requires
        0 <= i <= a.len(),
        i <= b.len(),
        forall|k: int| 0 <= k < i ==> a[k] == b[k],
        a != b,
    ensures
        name_lt_from(a, b, i) || name_lt_from(b, a, i),
    decreases a.len() - i,
{
    if i == a.len() && i == b.len() {
        assert(a =~= b);
    } else if i < a.len() && i < b.len() && a[i] == b[i] {
        lemma_name_lt_total(a, b, i + 1);
    }
}

/// `size` more bytes still fit in shard `r`.
pub open spec fn fits(r: RepoView, size: nat) -> bool {
    r.current_size + size <= MAX_SIZE_PER_REPO
}

/// Position of the first shard at or after `i` in which `size` fits, or -1.
pub open spec fn first_fit_from(repos: Seq<RepoView>, size: nat, i: int) -> int
    decreases repos.len() - i,
{
    if i < 0 || i >= repos.len() {
        -1
    } else if fits(repos[i], size) {
        i
    } else {
        first_fit_from(repos, size, i + 1)
    }
}

/// Position of the shard named `name`, or -1.
pub open spec fn position_of(repos: Seq<RepoView>, name: Seq<char>) -> int
    decreases repos.len(),
{
    if repos.len() == 0 {
        -1
    } else if repos.last().name == name {
        repos.len() - 1
    } else {
        position_of(repos.drop_last(), name)
    }
}

/// Position of the first shard at or after `i` whose name sorts after `name`, or the count.
pub open spec fn insert_pos_from(repos: Seq<RepoView>, name: Seq<char>, i: int) -> int
    decreases repos.len() - i,
{
    if i < 0 || i >= repos.len() {
        repos.len() as int
    } else if name_lt(name, repos[i].name) {
        i
    } else {
        insert_pos_from(repos, name, i + 1)
    }
}

/// The shards with a fresh shard `name` holding `size` bytes inserted where its name sorts.
pub open spec fn put_repo(repos: Seq<RepoView>, name: Seq<char>, size: nat) -> Seq<RepoView> {
    repos.insert(insert_pos_from(repos, name, 0), RepoView { name: name, current_size: size })
}

/// One allocation: the directory after it, the shard chosen, and whether that shard is new.
/// `None` where the chunk exceeds a shard's capacity, or where a new shard is needed and
/// either the counter cannot grow or the directory already holds a shard of the new name
/// (whose reservation must not be lost).
pub open spec fn allocate_spec(d: DirectoryView, size: nat) -> Option<(DirectoryView, Seq<char>, bool)> {
    let i = first_fit_from(d.repos, size, 0);
    if size > MAX_SIZE_PER_REPO {
        None
    } else if i >= 0 {
        let r = d.repos[i];
        Some((
            DirectoryView {
                next_id: d.next_id,
                repos: d.repos.update(i, RepoView { name: r.name, current_size: r.current_size + size }),
            },
            r.name,
            false,
        ))
    } else if d.next_id >= usize::MAX {
        None
    } else if position_of(d.repos, shard_name_spec(d.next_id)) >= 0 {
        None
    } else {
        let name = shard_name_spec(d.next_id);
        Some((DirectoryView { next_id: d.next_id + 1, repos: put_repo(d.repos, name, size) }, name, true))
    }
}

/// Where one chunk goes: the shard, and whether the shard was opened for it.
#[derive(Clone, Debug)]
pub struct Placement {
    pub repo: String,
    pub is_new: bool,
}

/// Why a chunk could not be placed.
#[derive(Clone, Copy, Debug, PartialEq, Eq, Structural)]
pub enum AllocError {
    /// The chunk is larger than a shard may ever hold.
    ChunkTooLarge,
    /// No shard has room and the shard counter is at its largest value.
    ShardIdsExhausted,
    /// No shard has room and the name the counter gives is already a shard's.
    ShardNameTaken,
}

/// The error an allocation that yields no placement reports.
pub open spec fn alloc_error(d: DirectoryView, size: nat) -> AllocError {
    if size > MAX_SIZE_PER_REPO {
        AllocError::ChunkTooLarge
    } else if d.next_id >= usize::MAX {
        AllocError::ShardIdsExhausted
    } else {
        AllocError::ShardNameTaken
    }
}

/// Total bytes reserved over all shards.
pub open spec fn reserved(repos: Seq<RepoView>) -> nat
    decreases repos.len(),
{
    if repos.len() == 0 { 0 } else { reserved(repos.drop_last()) + repos.last().current_size }
}

/// `repos` still holds a shard named as `r` with at least its reservation.
pub open spec fn kept(repos: Seq<RepoView>, r: RepoView) -> bool {
    exists|j: int| 0 <= j < repos.len() && #[trigger] repos[j].name == r.name && repos[j].current_size >= r.current_size
}

/// `b` is `a` with `amount` more bytes reserved in all, the counter not gone back, and every
/// shard of `a` still there with no less reserved.
pub open spec fn grows_by(a: DirectoryView, b: DirectoryView, amount: nat) -> bool {
    &&& reserved(b.repos) == reserved(a.repos) + amount
    &&& b.next_id >= a.next_id
    &&& forall|i: int| 0 <= i < a.repos.len() ==> #[trigger] kept(b.repos, a.repos[i])
}

impl ReposMetadata {
    /// An empty directory whose first shard will be numbered 1.
    pub fn new() -> (r: ReposMetadata)
        ensures
            r@.next_id == 1,
            r@.repos.len() == 0,
            directory_wf(r@),
    {
        ReposMetadata { next_id: 1, repos: Vec::new() }
    }

    /// Whether the directory is well formed: no shard over capacity, no name twice, names in
    /// ascending order.
    pub fn is_well_formed(&self) -> (r: bool)
        ensures
            r == directory_wf(self@),
    {
        let n = self.repos.len();
        let mut i: usize = 0;
        while i < n
            invariant
                n == self.repos.len(),
                i <= n,
                forall|a: int| 0 <= a < i ==> #[trigger] self@.repos[a].current_size <= MAX_SIZE_PER_REPO,
                forall|a: int, b: int| 0 <= a < i && 0 <= b < n && a != b
                    ==> #[trigger] self@.repos[a].name != #[trigger] self@.repos[b].name,
                forall|a: int, b: int| 0 <= a < i && a < b < n
                    ==> #[trigger] name_lt(self@.repos[a].name, self@.repos[b].name),
            decreases n - i,
        {
            assert(self@.repos[i as int] == self.repos@[i as int]@);
            if self.repos[i].current_size > MAX_SIZE_PER_REPO {
                assert(self@.repos[i as int].current_size > MAX_SIZE_PER_REPO);
                return false;
            }
            let mut j: usize = 0;
            while j < n
                invariant
                    n == self.repos.len(),
                    i < n,
                    j <= n,
                    forall|b: int| 0 <= b < j && b != i ==> self@.repos[i as int].name != #[trigger] self@.repos[b].name,
                    forall|b: int| i < b < j ==> #[trigger] name_lt(self@.repos[i as int].name, self@.repos[b].name),
                decreases n - j,
            {
                assert(self@.repos[j as int] == self.repos@[j as int]@);
                if j != i && self.repos[i].name == self.repos[j].name {
                    assert(self@.repos[i as int].name == self@.repos[j as int].name);
                    return false;
                }
                if j > i && !name_less(&self.repos[i].name, &self.repos[j].name) {
                    assert(!name_lt(self@.repos[i as int].name, self@.repos[j as int].name));
                    return false;
                }
                j = j + 1;
            }
            i = i + 1;
        }
        true
    }
}

/// Whether name `a` sorts before name `b`.
pub fn name_less(a: &String, b: &String) -> (r: bool)
    ensures
        r == name_lt(a@, b@),
{
    let sa = a.as_str();
    let sb = b.as_str();
    let n = sa.unicode_len();
    let m = sb.unicode_len();
    let mut i: usize = 0;
    while i < n && i < m && sa.get_char(i) == sb.get_char(i)
        invariant
            n == a@.len(),
            m == b@.len(),
            sa@ == a@,
            sb@ == b@,
            i <= n,
            i <= m,
            name_lt_from(a@, b@, 0) == name_lt_from(a@, b@, i as int),
        decreases n - i,
    {
        i = i + 1;
    }
    if i >= n {
        i < m
    } else if i >= m {
        false
    } else {
        sa.get_char(i) < sb.get_char(i)
    }
}

fn insert_position(repos: &Vec<RepoInfo>, name: &String) -> (r: usize)
    ensures
        r as int == insert_pos_from(repos@.map_values(|x: RepoInfo| x@), name@, 0),
        r <= repos.len(),
{
    let ghost v = repos@.map_values(|x: RepoInfo| x@);
    proof {
        lemma_insert_pos(v, name@, 0);
    }
    let mut p: usize = 0;
    while p < repos.len() && !name_less(name, &repos[p].name)
        invariant
            p <= repos.len(),
            v == repos@.map_values(|x: RepoInfo| x@),
            insert_pos_from(v, name@, 0) == insert_pos_from(v, name@, p as int),
        decreases repos.len() - p,
    {
        assert(v[p as int] == repos@[p as int]@);
        p = p + 1;
    }
    if p < repos.len() {
        assert(v[p as int] == repos@[p as int]@);
    }
    p
}

fn find_repo(repos: &Vec<RepoInfo>, name: &String) -> (r: Option<usize>)
    ensures
        match r {
            Some(p) => p as int == position_of(repos@.map_values(|x: RepoInfo| x@), name@),
            None => position_of(repos@.map_values(|x: RepoInfo| x@), name@) == -1,
        },
{
    let ghost v = repos@.map_values(|x: RepoInfo| x@);
    let mut k: usize = repos.len();
    assert(v.take(k as int) =~= v);
    while k > 0
        invariant
            k <= repos.len(),
            v == repos@.map_values(|x: RepoInfo| x@),
            position_of(v, name@) == position_of(v.take(k as int), name@),
        decreases k,
    {
        let ghost t = v.take(k as int);
        assert(t.drop_last() =~= v.take(k - 1));
        if repos[k - 1].name == *name {
            return Some(k - 1);
        }
        k = k - 1;
    }
    None
}

/// Reserves `chunk_size` bytes in the first shard, in scan order, that has room for them;
/// where none has, opens shard `storage-{next_id:04}`, inserts it in name order and advances
/// the counter. Where the directory already holds a shard of that name, nothing changes and
/// `ShardNameTaken` is returned, so no reservation is ever overwritten. A new shard must still
/// be created at the transport before anything is sent to it.
pub fn find_or_create_repo_for_chunk(repos_meta: &mut ReposMetadata, chunk_size: u64) -> (r: Result<Placement, AllocError>)
    requires
        directory_wf(old(repos_meta)@),
    ensures
        match allocate_spec(old(repos_meta)@, chunk_size as nat) {
            Some((d, name, is_new)) => r matches Ok(p) && p.repo@ == name && p.is_new == is_new
                && final(repos_meta)@ == d,
            None => r == Err::<Placement, AllocError>(alloc_error(old(repos_meta)@, chunk_size as nat))
                && final(repos_meta)@ == old(repos_meta)@,
        },
        chunk_size > MAX_SIZE_PER_REPO ==> r == Err::<Placement, AllocError>(AllocError::ChunkTooLarge),
        r is Ok ==> grows_by(old(repos_meta)@, final(repos_meta)@, chunk_size as nat),
        directory_wf(final(repos_meta)@),
{
    if chunk_size > MAX_SIZE_PER_REPO {
        return Err(AllocError::ChunkTooLarge);
    }
    let ghost d = repos_meta@;
    let ghost size = chunk_size as nat;
    let n = repos_meta.repos.len();
    let mut i: usize = 0;
    while i < n
        invariant
            n == repos_meta.repos.len(),
            d == repos_meta@,
            d == old(repos_meta)@,
            directory_wf(d),
            chunk_size <= MAX_SIZE_PER_REPO,
            size == chunk_size as nat,
            i <= n,
            first_fit_from(d.repos, size, 0) == first_fit_from(d.repos, size, i as int),
        decreases n - i,
    {
        assert(d.repos[i as int] == repos_meta.repos@[i as int]@);
        if repos_meta.repos[i].current_size + chunk_size <= MAX_SIZE_PER_REPO {
            assert(first_fit_from(d.repos, size, i as int) == i);
            let name = repos_meta.repos[i].name.clone();
            repos_meta.repos[i].current_size = repos_meta.repos[i].current_size + chunk_size;
            assert(repos_meta@.repos =~= d.repos.update(i as int, RepoView { name: d.repos[i as int].name, current_size: d.repos[i as int].current_size + size }));
            assert(name@ == d.repos[i as int].name);
            assert(repos_meta@ =~= allocate_spec(d, size).unwrap().0);
            proof {
                lemma_allocate_grows(d, size);
            }
            return Ok(Placement { repo: name, is_new: false });
        }
        i = i + 1;
    }
    assert(first_fit_from(d.repos, size, n as int) == -1);
    if repos_meta.next_id == usize::MAX {
        return Err(AllocError::ShardIdsExhausted);
    }
    let id = repos_meta.next_id;
    let name = shard_name(id);
    proof {
        lemma_position_of(repos_meta.repos@.map_values(|x: RepoInfo| x@), name@);
    }
    if find_repo(&repos_meta.repos, &name).is_some() {
        return Err(AllocError::ShardNameTaken);
    }
    repos_meta.next_id = id + 1;
    let fresh = RepoInfo { name: name.clone(), current_size: chunk_size };
    let at = insert_position(&repos_meta.repos, &name);
    repos_meta.repos.insert(at, fresh);
    assert(repos_meta@.repos =~= put_repo(d.repos, name@, size));
    proof {
        lemma_put_repo_wf(d, name@, size);
        lemma_allocate_grows(d, size);
    }
    Ok(Placement { repo: name, is_new: true })
}

proof fn lemma_position_of(repos: Seq<RepoView>, name: Seq<char>)
    ensures
        -1 <= position_of(repos, name) < repos.len(),
        position_of(repos, name) >= 0 ==> repos[position_of(repos, name)].name == name,
        position_of(repos, name) == -1 ==> forall|i: int| 0 <= i < repos.len() ==> #[trigger] repos[i].name != name,
    decreases repos.len(),
{
    if repos.len() > 0 {
        lemma_position_of(repos.drop_last(), name);
        if position_of(repos, name) == -1 {
            assert forall|i: int| 0 <= i < repos.len() implies #[trigger] repos[i].name != name by {
                if i < repos.len() - 1 {
                    assert(repos.drop_last()[i] == repos[i]);
                }
            }
        }
    }
}

proof fn lemma_insert_pos(repos: Seq<RepoView>, name: Seq<char>, i: int)
    requires
        0 <= i <= repos.len(),
    ensures
        i <= insert_pos_from(repos, name, i) <= repos.len(),
        forall|j: int| i <= j < insert_pos_from(repos, name, i) ==> !#[trigger] name_lt(name, repos[j].name),
        insert_pos_from(repos, name, i) < repos.len() ==> name_lt(name, repos[insert_pos_from(repos, name, i)].name),
    decreases repos.len() - i,
{
    if i < repos.len() && !name_lt(name, repos[i].name) {
        lemma_insert_pos(repos, name, i + 1);
    }
}

proof fn lemma_put_repo_wf(d: DirectoryView, name: Seq<char>, size: nat)
    requires
        directory_wf(d),
        size <= MAX_SIZE_PER_REPO,
        position_of(d.repos, name) == -1,
    ensures
        directory_wf(DirectoryView { next_id: d.next_id + 1, repos: put_repo(d.repos, name, size) }),
{
    lemma_position_of(d.repos, name);
    let repos = d.repos;
    let fresh = RepoView { name: name, current_size: size };
    {
        let q = insert_pos_from(repos, name, 0);
        lemma_insert_pos(repos, name, 0);
        let s2 = repos.insert(q, fresh);
        assert(s2 == put_repo(repos, name, size));
        assert forall|k: int| 0 <= k < s2.len() implies
            (#[trigger] s2[k]) == (if k < q { repos[k] } else if k == q { fresh } else { repos[k - 1] }) by {}
        assert forall|i: int, j: int| 0 <= i < j < s2.len() implies #[trigger] name_lt(s2[i].name, s2[j].name) by {
            assert(s2[i] == (if i < q { repos[i] } else if i == q { fresh } else { repos[i - 1] }));
            assert(s2[j] == (if j < q { repos[j] } else if j == q { fresh } else { repos[j - 1] }));
            if j < q {
                assert(name_lt(repos[i].name, repos[j].name));
            } else if i > q {
                assert(name_lt(repos[i - 1].name, repos[j - 1].name));
            } else if j == q {
                assert(!name_lt(name, repos[i].name));
                assert(repos[i].name != name);
                lemma_name_lt_total(repos[i].name, name, 0);
            } else if i == q {
                if j - 1 > q {
                    assert(name_lt(repos[q].name, repos[j - 1].name));
                    lemma_name_lt_transitive(name, repos[q].name, repos[j - 1].name, 0);
                }
            } else {
                assert(name_lt(repos[i].name, repos[j - 1].name));
            }
        }
        assert forall|i: int, j: int| 0 <= i < s2.len() && 0 <= j < s2.len() && i != j
            implies #[trigger] s2[i].name != #[trigger] s2[j].name by {
            if i < j {
                lemma_name_lt_irreflexive(s2[i].name, 0);
            } else {
                lemma_name_lt_irreflexive(s2[j].name, 0);
            }
        }
        assert forall|k: int| 0 <= k < s2.len() implies #[trigger] s2[k].current_size <= MAX_SIZE_PER_REPO by {}
    }
}

} // verus!

verus! {

impl View for Placement {
    type V = (Seq<char>, bool);

    open spec fn view(&self) -> (Seq<char>, bool) {
        (self.repo@, self.is_new)
    }
}

/// A whole planning pass: chunks of the given sizes allocated one after the other, in order.
/// Yields the final directory and each chunk's shard with whether it was opened for it.
pub open spec fn plan_spec(d: DirectoryView, sizes: Seq<nat>) -> Option<(DirectoryView, Seq<(Seq<char>, bool)>)>
    decreases sizes.len(),
{
    if sizes.len() == 0 {
        Some((d, Seq::empty()))
    } else {
        match plan_spec(d, sizes.drop_last()) {
            None => None,
            Some((d1, placed)) => match allocate_spec(d1, sizes.last()) {
                None => None,
                Some((d2, name, is_new)) => Some((d2, placed.push((name, is_new)))),
            },
        }
    }
}

/// The chunk sizes of a `total`-byte file cut into `c`-byte chunks.
pub open spec fn plan_sizes(total: nat, c: nat) -> Seq<nat> {
    Seq::new(crate::chunker::chunk_count(total, c), |i: int| crate::chunker::chunk_len(total, c, i as nat))
}

proof fn lemma_first_fit(repos: Seq<RepoView>, size: nat, i: int)
    requires
        0 <= i,
    ensures
        first_fit_from(repos, size, i) == -1 || (i <= first_fit_from(repos, size, i) < repos.len()
            && fits(repos[first_fit_from(repos, size, i)], size)),
    decreases repos.len() - i,
{
    if i < repos.len() && !fits(repos[i], size) {
        lemma_first_fit(repos, size, i + 1);
    }
}

proof fn lemma_reserved_update(repos: Seq<RepoView>, i: int, r: RepoView)
    requires
        0 <= i < repos.len(),
    ensures
        reserved(repos.update(i, r)) + repos[i].current_size == reserved(repos) + r.current_size,
    decreases repos.len(),
{
    let u = repos.update(i, r);
    if i == repos.len() - 1 {
        assert(u.drop_last() =~= repos.drop_last());
    } else {
        assert(u.drop_last() =~= repos.drop_last().update(i, r));
        lemma_reserved_update(repos.drop_last(), i, r);
    }
}

proof fn lemma_reserved_insert(repos: Seq<RepoView>, i: int, r: RepoView)
    requires
        0 <= i <= repos.len(),
    ensures
        reserved(repos.insert(i, r)) == reserved(repos) + r.current_size,
    decreases repos.len(),
{
    let u = repos.insert(i, r);
    if i == repos.len() {
        assert(u.drop_last() =~= repos);
    } else {
        assert(u.drop_last() =~= repos.drop_last().insert(i, r));
        lemma_reserved_insert(repos.drop_last(), i, r);
    }
}

/// A successful allocation reserves exactly the chunk's size more in all, keeps every shard
/// with no less reserved, and never moves the counter back.
pub proof fn lemma_allocate_grows(d: DirectoryView, size: nat)
    ensures
        allocate_spec(d, size) matches Some((d2, _, _)) ==> grows_by(d, d2, size),
{
    lemma_first_fit(d.repos, size, 0);
    if let Some((d2, _, _)) = allocate_spec(d, size) {
        let i = first_fit_from(d.repos, size, 0);
        if i >= 0 {
            let r = d.repos[i];
            lemma_reserved_update(d.repos, i, RepoView { name: r.name, current_size: r.current_size + size });
            assert forall|a: int| 0 <= a < d.repos.len() implies #[trigger] kept(d2.repos, d.repos[a]) by {
                assert(d2.repos[a].name == d.repos[a].name);
                assert(d2.repos[a].current_size >= d.repos[a].current_size);
            }
        } else {
            let name = shard_name_spec(d.next_id);
            let q = insert_pos_from(d.repos, name, 0);
            lemma_insert_pos(d.repos, name, 0);
            lemma_reserved_insert(d.repos, q, RepoView { name: name, current_size: size });
            assert forall|a: int| 0 <= a < d.repos.len() implies #[trigger] kept(d2.repos, d.repos[a]) by {
                if a < q {
                    assert(d2.repos[a] == d.repos[a]);
                    assert(d2.repos[a].name == d.repos[a].name);
                } else {
                    assert(d2.repos[a + 1] == d.repos[a]);
                    assert(d2.repos[a + 1].name == d.repos[a].name);
                }
            }
        }
    }
}

proof fn lemma_grows_trans(a: DirectoryView, b: DirectoryView, c: DirectoryView, x: nat, y: nat)
    requires
        grows_by(a, b, x),
        grows_by(b, c, y),
    ensures
        grows_by(a, c, x + y),
{
    assert forall|i: int| 0 <= i < a.repos.len() implies #[trigger] kept(c.repos, a.repos[i]) by {
        assert(kept(b.repos, a.repos[i]));
        let j = choose|j: int| 0 <= j < b.repos.len() && #[trigger] b.repos[j].name == a.repos[i].name
            && b.repos[j].current_size >= a.repos[i].current_size;
        assert(kept(c.repos, b.repos[j]));
        let k = choose|k: int| 0 <= k < c.repos.len() && #[trigger] c.repos[k].name == b.repos[j].name
            && c.repos[k].current_size >= b.repos[j].current_size;
        assert(c.repos[k].current_size >= a.repos[i].current_size);
    }
}

/// Sum of a sequence of sizes.
pub open spec fn sizes_total(sizes: Seq<nat>) -> nat
    decreases sizes.len(),
{
    if sizes.len() == 0 { 0 } else { sizes_total(sizes.drop_last()) + sizes.last() }
}

/// A planning pass only adds: it reserves exactly the sum of the chunk sizes more in all,
/// keeps every shard with no less reserved, and never moves the counter back.
pub proof fn lemma_plan_grows(d: DirectoryView, sizes: Seq<nat>)
    ensures
        plan_spec(d, sizes) matches Some((d2, _)) ==> grows_by(d, d2, sizes_total(sizes)),
    decreases sizes.len(),
{
    if sizes.len() == 0 {
        assert forall|i: int| 0 <= i < d.repos.len() implies #[trigger] kept(d.repos, d.repos[i]) by {
            assert(d.repos[i].name == d.repos[i].name);
        }
    } else {
        let rest = sizes.drop_last();
        lemma_plan_grows(d, rest);
        if let Some((d1, _)) = plan_spec(d, rest) {
            lemma_allocate_grows(d1, sizes.last());
            if let Some((d2, _, _)) = allocate_spec(d1, sizes.last()) {
                lemma_grows_trans(d, d1, d2, sizes_total(rest), sizes.last());
            }
        }
    }
}

proof fn lemma_plan_sizes_total(total: nat, c: nat, n: nat)
    requires
        n <= crate::chunker::chunk_count(total, c),
    ensures
        sizes_total(plan_sizes(total, c).take(n as int)) == crate::chunker::chunk_len_sum(total, c, n),
    decreases n,
{
    let s = plan_sizes(total, c);
    if n > 0 {
        assert(s.take(n as int).drop_last() =~= s.take(n - 1));
        lemma_plan_sizes_total(total, c, (n - 1) as nat);
    } else {
        assert(s.take(0) =~= Seq::<nat>::empty());
    }
}

/// A single allocation keeps the directory well formed.
pub proof fn lemma_allocate_wf(d: DirectoryView, size: nat)
    requires
        directory_wf(d),
    ensures
        allocate_spec(d, size) matches Some((d2, _, _)) ==> directory_wf(d2),
        size > MAX_SIZE_PER_REPO ==> allocate_spec(d, size) is None,
{
    lemma_first_fit(d.repos, size, 0);
    if size <= MAX_SIZE_PER_REPO && first_fit_from(d.repos, size, 0) < 0 {
        if d.next_id < usize::MAX && position_of(d.repos, shard_name_spec(d.next_id)) < 0 {
            lemma_position_of(d.repos, shard_name_spec(d.next_id));
            lemma_put_repo_wf(d, shard_name_spec(d.next_id), size);
        }
    } else if size <= MAX_SIZE_PER_REPO {
        let i = first_fit_from(d.repos, size, 0);
        let d2 = allocate_spec(d, size).unwrap().0;
        assert forall|a: int, b: int| 0 <= a < d2.repos.len() && 0 <= b < d2.repos.len() && a != b
            implies #[trigger] d2.repos[a].name != #[trigger] d2.repos[b].name by {
            assert(d2.repos[a].name == d.repos[a].name);
            assert(d2.repos[b].name == d.repos[b].name);
        }
        assert forall|a: int, b: int| 0 <= a < b < d2.repos.len()
            implies #[trigger] name_lt(d2.repos[a].name, d2.repos[b].name) by {
            assert(d2.repos[a].name == d.repos[a].name);
            assert(d2.repos[b].name == d.repos[b].name);
        }
    }
}

/// Capacity is never overbooked: from a well-formed directory, every sequence of allocations
/// that succeeds leaves each shard within `MAX_SIZE_PER_REPO` and no name twice, and a
/// sequence holding a chunk larger than a shard can hold is refused.
pub proof fn lemma_capacity_respected(d: DirectoryView, sizes: Seq<nat>)
    requires
        directory_wf(d),
    ensures
        plan_spec(d, sizes) matches Some((d2, _)) ==> directory_wf(d2),
        plan_spec(d, sizes) matches Some((_, placed)) ==> placed.len() == sizes.len(),
        (exists|k: int| 0 <= k < sizes.len() && #[trigger] sizes[k] > MAX_SIZE_PER_REPO) ==> plan_spec(d, sizes) is None,
    decreases sizes.len(),
{
    if sizes.len() > 0 {
        let rest = sizes.drop_last();
        lemma_capacity_respected(d, rest);
        if let Some((d1, _)) = plan_spec(d, rest) {
            lemma_allocate_wf(d1, sizes.last());
        }
        if exists|k: int| 0 <= k < sizes.len() && #[trigger] sizes[k] > MAX_SIZE_PER_REPO {
            let k = choose|k: int| 0 <= k < sizes.len() && #[trigger] sizes[k] > MAX_SIZE_PER_REPO;
            if k < sizes.len() - 1 {
                assert(rest[k] == sizes[k]);
            }
        }
    }
}

/// Allocation is deterministic: the same starting directory and the same chunk sizes give
/// the same placements and the same final directory.
pub proof fn lemma_allocation_deterministic(d1: DirectoryView, d2: DirectoryView, sizes: Seq<nat>)
    requires
        d1 == d2,
    ensures
        plan_spec(d1, sizes) == plan_spec(d2, sizes),
{
}

/// Plans one upload: cuts `file_size` bytes into `chunk_size`-byte chunks and places each in
/// turn with [`find_or_create_repo_for_chunk`]. On success the directory holds every
/// reservation and must be saved before any transfer starts; on failure it is to be dropped.
pub fn plan_upload(repos_meta: &mut ReposMetadata, file_size: u64, chunk_size: u64) -> (r: Result<Vec<Placement>, AllocError>)
    requires
        directory_wf(old(repos_meta)@),
        chunk_size > 0,
        crate::chunker::chunk_count(file_size as nat, chunk_size as nat) <= usize::MAX,
    ensures
        match plan_spec(old(repos_meta)@, plan_sizes(file_size as nat, chunk_size as nat)) {
            Some((d, placed)) => r matches Ok(v) && final(repos_meta)@ == d && v@.map_values(|p: Placement| p@) == placed,
            None => r is Err,
        },
        r is Ok ==> grows_by(old(repos_meta)@, final(repos_meta)@, file_size as nat),
        directory_wf(final(repos_meta)@),
{
    let chunks = crate::chunker::plan_chunks(file_size, chunk_size);
    let ghost sizes = plan_sizes(file_size as nat, chunk_size as nat);
    let ghost d0 = repos_meta@;
    let mut out: Vec<Placement> = Vec::new();
    let mut i: usize = 0;
    assert(sizes.take(0) =~= Seq::<nat>::empty());
    assert forall|k: int| 0 <= k < chunks.len() implies (#[trigger] chunks[k].size as nat) == sizes[k] by {
        assert(chunks[k].index == k as usize);
    }
    while i < chunks.len()
        invariant
            i <= chunks.len(),
            out.len() == i,
            chunks.len() == sizes.len(),
            sizes == plan_sizes(file_size as nat, chunk_size as nat),
            d0 == old(repos_meta)@,
            forall|k: int| 0 <= k < chunks.len() ==> (#[trigger] chunks[k].size as nat) == sizes[k],
            directory_wf(repos_meta@),
            plan_spec(d0, sizes.take(i as int)) == Some((repos_meta@, out@.map_values(|p: Placement| p@))),
        decreases chunks.len() - i,
    {
        let ghost before = repos_meta@;
        let ghost placed = out@.map_values(|p: Placement| p@);
        assert(sizes.take(i + 1).drop_last() =~= sizes.take(i as int));
        match find_or_create_repo_for_chunk(repos_meta, chunks[i].size) {
            Ok(p) => {
                let ghost pv = p@;
                out.push(p);
                assert(out@.map_values(|p: Placement| p@) =~= placed.push(pv));
            },
            Err(e) => {
                proof {
                    lemma_plan_none_extends(d0, sizes, i as nat + 1);
                }
                return Err(e);
            },
        }
        i = i + 1;
    }
    assert(sizes.take(i as int) =~= sizes);
    proof {
        let n = crate::chunker::chunk_count(file_size as nat, chunk_size as nat);
        lemma_plan_grows(d0, sizes);
        lemma_plan_sizes_total(file_size as nat, chunk_size as nat, n);
        crate::chunker::lemma_chunk_plan(file_size as nat, chunk_size as nat);
        assert(sizes.take(n as int) =~= sizes);
    }
    Ok(out)
}

proof fn lemma_plan_none_extends(d: DirectoryView, sizes: Seq<nat>, k: nat)
    requires
        k <= sizes.len(),
        plan_spec(d, sizes.take(k as int)) is None,
    ensures
        plan_spec(d, sizes) is None,
    decreases sizes.len() - k,
{
    if k < sizes.len() {
        assert(sizes.take(k + 1 as int).drop_last() =~= sizes.take(k as int));
        lemma_plan_none_extends(d, sizes, k + 1);
    } else {
        assert(sizes.take(k as int) =~= sizes);
    }
}

} // verus!
