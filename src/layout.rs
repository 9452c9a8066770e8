//! Where manifests live in the metadata tree, and how a listing names them.
use vstd::prelude::*;

verus! {

/// Position of the last `/` in `s`, or -1.
pub open spec fn last_slash(s: Seq<char>) -> int
    decreases s.len(),
{
    if s.len() == 0 {
        -1
    } else if s.last() == '/' {
        s.len() - 1
    } else {
        last_slash(s.drop_last())
    }
}

/// The last component of a path: what follows its last `/`.
pub open spec fn file_name_of(s: Seq<char>) -> Seq<char> {
    s.subrange(last_slash(s) + 1, s.len() as int)
}

/// A remote path that names a file: not empty, relative, without a trailing `/`, and whose
/// last component is neither `.` nor `..`.
pub open spec fn names_file(remote: Seq<char>) -> bool {
    &&& remote.len() > 0
    &&& remote[0] != '/'
    &&& remote.last() != '/'
    &&& file_name_of(remote) != seq!['.']
    &&& file_name_of(remote) != seq!['.', '.']
}

/// The suffix that marks a manifest document.
pub open spec fn manifest_suffix() -> Seq<char> {
    seq!['.', 'j', 's', 'o', 'n']
}

/// The name a listing gives to the manifest at `rel`: `rel` without `.json` where its file
/// name has the extension `json`; none otherwise.
pub open spec fn listing_name_spec(rel: Seq<char>) -> Option<Seq<char>> {
    let n = rel.len();
    if n >= 6 && rel.subrange(n - 5, n as int) == manifest_suffix() && rel[n - 6] != '/' {
        Some(rel.take(n - 5))
    } else {
        None
    }
}

/// Why a remote path cannot be used.
#[derive(Clone, Copy, Debug, PartialEq, Eq, Structural)]
pub enum ConfigurationError {
    /// The remote path does not name a file.
    NoFileName,
}

proof fn lemma_last_slash(s: Seq<char>)
    ensures
        -1 <= last_slash(s) < s.len(),
        last_slash(s) >= 0 ==> s[last_slash(s)] == '/',
        forall|i: int| last_slash(s) < i < s.len() ==> #[trigger] s[i] != '/',
    decreases s.len(),
{
    if s.len() > 0 && s.last() != '/' {
        lemma_last_slash(s.drop_last());
        assert forall|i: int| last_slash(s) < i < s.len() implies #[trigger] s[i] != '/' by {
            if i < s.len() - 1 {
                assert(s.drop_last()[i] == s[i]);
            }
        }
    }
}

fn file_name_start(s: &Vec<char>) -> (r: usize)
    ensures
        r as int == last_slash(s@) + 1,
{
    let mut k: usize = s.len();
    assert(s@.take(k as int) =~= s@);
    while k > 0 && s[k - 1] != '/'
        invariant
            k <= s.len(),
            last_slash(s@) == last_slash(s@.take(k as int)),
        decreases k,
    {
        assert(s@.take(k as int).drop_last() =~= s@.take(k - 1));
        k = k - 1;
    }
    if k > 0 {
        assert(s@.take(k as int).last() == '/');
    }
    k
}

fn chars_of(s: &str) -> (r: Vec<char>)
    ensures
        r@ == s@,
{
    let n = s.unicode_len();
    let mut v: Vec<char> = Vec::new();
    let mut i: usize = 0;
    while i < n
        invariant
            n == s@.len(),
            i <= n,
            v@ == s@.take(i as int),
        decreases n - i,
    {
        v.push(s.get_char(i));
        i = i + 1;
        assert(v@ =~= s@.take(i as int));
    }
    assert(s@.take(n as int) =~= s@);
    v
}

/// Where the manifest of `remote` lives under the metadata tree's `fs` directory:
/// `{remote}.json`. Fails where `remote` does not name a file.
pub fn manifest_rel_path(remote: &str) -> (r: Result<String, ConfigurationError>)
    ensures
        names_file(remote@) <==> r is Ok,
        r matches Ok(p) ==> p@ == remote@ + manifest_suffix(),
{
    let v = chars_of(remote);
    let n = v.len();
    if n == 0 || v[0] == '/' || v[n - 1] == '/' {
        return Err(ConfigurationError::NoFileName);
    }
    let start = file_name_start(&v);
    proof {
        lemma_last_slash(v@);
    }
    let len = n - start;
    let ghost f = file_name_of(v@);
    assert(f.len() == len);
    if len == 1 && v[start] == '.' {
        assert(f =~= seq!['.']);
        return Err(ConfigurationError::NoFileName);
    }
    if len == 2 && v[start] == '.' && v[start + 1] == '.' {
        assert(f =~= seq!['.', '.']);
        return Err(ConfigurationError::NoFileName);
    }
    assert(len == 1 ==> f[0] != '.');
    assert(len == 2 ==> f[0] != '.' || f[1] != '.');
    let mut out = String::from_str(remote);
    proof {
        reveal_strlit(".json");
    }
    out.append(".json");
    assert(out@ =~= remote@ + manifest_suffix());
    Ok(out)
}

/// The name under which a listing shows the manifest found at `rel` (relative to the `fs`
/// directory), or none where `rel` is not a manifest.
pub fn listing_name(rel: &str) -> (r: Option<String>)
    ensures
        match listing_name_spec(rel@) {
            Some(name) => r matches Some(s) && s@ == name,
            None => r is None,
        },
{
    let v = chars_of(rel);
    let n = v.len();
    if n < 6 || v[n - 6] == '/' || v[n - 5] != '.' || v[n - 4] != 'j' || v[n - 3] != 's' || v[n - 2] != 'o'
        || v[n - 1] != 'n' {
        proof {
            if n >= 6 && v@[n - 6] != '/' {
                let tail = v@.subrange(n - 5, n as int);
                assert(tail != manifest_suffix()) by {
                    if tail == manifest_suffix() {
                        assert(tail[0] == v@[n - 5] && tail[1] == v@[n - 4] && tail[2] == v@[n - 3]
                            && tail[3] == v@[n - 2] && tail[4] == v@[n - 1]);
                    }
                }
            }
        }
        return None;
    }
    assert(v@.subrange(n - 5, n as int) =~= manifest_suffix());
    let mut out = String::new();
    let mut i: usize = 0;
    while i < n - 5
        invariant
            n == v.len(),
            n >= 6,
            i <= n - 5,
            v@ == rel@,
            out@ == v@.take(i as int),
        decreases n - 5 - i,
    {
        push_char(&mut out, v[i]);
        i = i + 1;
        assert(out@ =~= v@.take(i as int));
    }
    Some(out)
}

/// Relies on `String::push`: the character is appended.
#[verifier::external_body]
fn push_char(s: &mut String, c: char)
    ensures
        final(s)@ == old(s)@.push(c),
{
    s.push(c)
}

/// Every manifest written for a remote path is listed under that path, so uploads to distinct
/// remote paths are listed as distinct entries.
pub proof fn lemma_listed_under_remote(remote: Seq<char>)
    requires
        names_file(remote),
    ensures
        listing_name_spec(remote + manifest_suffix()) == Some(remote),
{
    let rel = remote + manifest_suffix();
    let n = rel.len();
    assert(rel.subrange(n - 5, n as int) =~= manifest_suffix());
    assert(rel[n - 6] == remote.last());
    assert(rel.take(n - 5) =~= remote);
}

} // verus!

verus! {

/// A listing of `(path, size)` pairs found under the `fs` directory: the manifests among them,
/// under their listing names, in the order found.
pub open spec fn listing_spec(found: Seq<(Seq<char>, u64)>) -> Seq<(Seq<char>, u64)>
    decreases found.len(),
{
    if found.len() == 0 {
        Seq::empty()
    } else {
        let rest = listing_spec(found.drop_last());
        match listing_name_spec(found.last().0) {
            Some(name) => rest.push((name, found.last().1)),
            None => rest,
        }
    }
}

/// The view of found files as plain values.
pub open spec fn found_view(found: Seq<(String, u64)>) -> Seq<(Seq<char>, u64)> {
    found.map_values(|p: (String, u64)| (p.0@, p.1))
}

/// The listing of the files found under the `fs` directory, each given as its path relative to
/// that directory and the size recorded in it: the manifests, named after their remote paths.
pub fn list_files(found: &Vec<(String, u64)>) -> (r: Vec<(String, u64)>)
    ensures
        found_view(r@) == listing_spec(found_view(found@)),
{
    let ghost fv = found_view(found@);
    let mut out: Vec<(String, u64)> = Vec::new();
    let mut i: usize = 0;
    assert(fv.take(0) =~= Seq::<(Seq<char>, u64)>::empty());
    assert(found_view(out@) =~= Seq::<(Seq<char>, u64)>::empty());
    while i < found.len()
        invariant
            i <= found.len(),
            fv == found_view(found@),
            found_view(out@) == listing_spec(fv.take(i as int)),
        decreases found.len() - i,
    {
        assert(fv.take(i + 1).drop_last() =~= fv.take(i as int));
        assert(fv[i as int] == (found[i as int].0@, found[i as int].1));
        let ghost before = found_view(out@);
        match listing_name(found[i].0.as_str()) {
            Some(name) => {
                let ghost nv = name@;
                out.push((name, found[i].1));
                assert(found_view(out@) =~= before.push((nv, found[i as int].1)));
            },
            None => {},
        }
        i = i + 1;
    }
    assert(fv.take(i as int) =~= fv);
    out
}

/// Listing after uploads: where the manifests found are those of uploads to remote paths
/// `remotes` with sizes `sizes`, the listing has exactly one entry per upload, under its remote
/// path and with its size; after no upload it is empty.
pub proof fn lemma_listing_after_uploads(remotes: Seq<Seq<char>>, sizes: Seq<u64>)
    requires
        remotes.len() == sizes.len(),
        forall|i: int| 0 <= i < remotes.len() ==> names_file(#[trigger] remotes[i]),
    ensures
        listing_spec(Seq::new(remotes.len(), |i: int| (remotes[i] + manifest_suffix(), sizes[i])))
            == Seq::new(remotes.len(), |i: int| (remotes[i], sizes[i])),
    decreases remotes.len(),
{
    let n = remotes.len();
    let found = Seq::new(n, |i: int| (remotes[i] + manifest_suffix(), sizes[i]));
    if n == 0 {
        assert(listing_spec(found) =~= Seq::<(Seq<char>, u64)>::empty());
        assert(Seq::new(n, |i: int| (remotes[i], sizes[i])) =~= Seq::<(Seq<char>, u64)>::empty());
    } else {
        let r2 = remotes.drop_last();
        let s2 = sizes.drop_last();
        assert forall|i: int| 0 <= i < r2.len() implies names_file(#[trigger] r2[i]) by {
            assert(r2[i] == remotes[i]);
        }
        lemma_listing_after_uploads(r2, s2);
        assert(found.drop_last() =~= Seq::new(r2.len(), |i: int| (r2[i] + manifest_suffix(), s2[i])));
        lemma_listed_under_remote(remotes[n - 1]);
        assert(Seq::new(n, |i: int| (remotes[i], sizes[i])) =~= Seq::new(r2.len(), |i: int| (r2[i], s2[i])).push(
            (remotes[n - 1], sizes[n - 1])));
    }
}

} // verus!
