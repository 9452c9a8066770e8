//! Splitting a byte length into fixed-size chunks.
use vstd::prelude::*;

verus! {

/// One byte range of a file: its ordinal, where it starts and how long it is.
#[derive(Clone, Copy, Debug, PartialEq, Eq, Structural)]
pub struct Chunk {
    pub index: usize,
    pub offset: u64,
    pub size: u64,
}

/// Number of chunks of a `total`-byte file: `ceil(total / c)`.
pub open spec fn chunk_count(total: nat, c: nat) -> nat
    recommends
        c > 0,
{
    if c == 0 { 0 } else { ((total + c - 1) / (c as int)) as nat }
}

/// Size of chunk `i`: `c`, or what is left for the last one.
pub open spec fn chunk_len(total: nat, c: nat, i: nat) -> nat {
    if total >= (i + 1) * c { c } else { (total - i * c) as nat }
}

/// Sum of the sizes of the first `n` chunks.
pub open spec fn chunk_len_sum(total: nat, c: nat, n: nat) -> nat
    decreases n,
{
    if n == 0 { 0 } else { chunk_len_sum(total, c, (n - 1) as nat) + chunk_len(total, c, (n - 1) as nat) }
}

/// The `i`-th chunk of a `total`-byte file.
pub open spec fn chunk_at(total: nat, c: nat, i: nat) -> (usize, nat, nat) {
    (i as usize, i * c, chunk_len(total, c, i))
}

proof fn lemma_count_bounds(total: nat, c: nat, n: nat)
    requires
        c > 0,
        n > 0 ==> (n - 1) * c < total,
        total <= n * c,
    ensures
        n == chunk_count(total, c),
{
    let q = ((total + c - 1) / (c as int)) as nat;
    assert(q * c <= total + c - 1 < q * c + c) by (nonlinear_arith)
        requires q == (total + c - 1) / (c as int), c > 0;
    if n > 0 {
        assert(q == n) by (nonlinear_arith)
            requires q * c <= total + c - 1 < q * c + c, (n - 1) * c < total, total <= n * c, c > 0, n > 0;
    } else {
        assert(total == 0);
        assert(q == 0) by (nonlinear_arith)
            requires q * c <= c - 1, c > 0;
    }
}

proof fn lemma_sum_prefix(total: nat, c: nat, n: nat)
    requires
        c > 0,
        n <= chunk_count(total, c),
    ensures
        chunk_len_sum(total, c, n) == if total < n * c { total } else { n * c },
    decreases n,
{
    let k = chunk_count(total, c);
    assert(k * c >= total && (k > 0 ==> (k - 1) * c < total)) by (nonlinear_arith)
        requires k == (total + c - 1) / (c as int), c > 0;
    if n > 0 {
        let m = (n - 1) as nat;
        lemma_sum_prefix(total, c, m);
        assert(m * c < total) by (nonlinear_arith)
            requires m < k, k > 0 ==> (k - 1) * c < total, c > 0;
        assert(n * c == m * c + c) by (nonlinear_arith)
            requires n == m + 1;
    } else {
        assert(n * c == 0) by (nonlinear_arith)
            requires n == 0;
    }
}

/// A `S`-byte file cut at `C` bytes gives `ceil(S/C)` chunks, none for an empty file, each of
/// 1 to `C` bytes; their sizes sum to `S`, and the last holds `S mod C` bytes, or `C` where
/// `C` divides `S`.
pub proof fn lemma_chunk_plan(total: nat, c: nat)
    requires
        c > 0,
    ensures
        chunk_len_sum(total, c, chunk_count(total, c)) == total,
        total == 0 <==> chunk_count(total, c) == 0,
        total > 0 ==> chunk_len(total, c, (chunk_count(total, c) - 1) as nat) == if total % c == 0 { c } else { total % c },
        forall|i: nat| i < chunk_count(total, c) ==> 0 < #[trigger] chunk_len(total, c, i) <= c,
{
    let k = chunk_count(total, c);
    assert(k * c >= total && (k > 0 ==> (k - 1) * c < total) && (total == 0 ==> k == 0) && (total > 0 ==> k > 0)) by (nonlinear_arith)
        requires k == (total + c - 1) / (c as int), c > 0;
    lemma_sum_prefix(total, c, k);
    if total > 0 {
        let m = (k - 1) as nat;
        assert(total - m * c == if total % c == 0 { c } else { total % c }) by (nonlinear_arith)
            requires m * c < total, total <= (m + 1) * c, c > 0;
        assert((m + 1) * c == m * c + c) by (nonlinear_arith);
    }
    assert forall|i: nat| i < k implies 0 < #[trigger] chunk_len(total, c, i) <= c by {
        assert(i * c < total && (i + 1) * c == i * c + c) by (nonlinear_arith)
            requires i < k, (k - 1) * c < total, k > 0, c > 0;
    }
}

/// The chunks of a `file_size`-byte file, in order: chunk `i` starts at `i * chunk_size` and
/// holds `min(chunk_size, remaining)` bytes. An empty file has no chunk.
pub fn plan_chunks(file_size: u64, chunk_size: u64) -> (r: Vec<Chunk>)
    requires
        chunk_size > 0,
        chunk_count(file_size as nat, chunk_size as nat) <= usize::MAX,
    ensures
        r.len() == chunk_count(file_size as nat, chunk_size as nat),
        forall|i: int| 0 <= i < r.len() ==> (#[trigger] r[i].index, r[i].offset as nat, r[i].size as nat)
            == chunk_at(file_size as nat, chunk_size as nat, i as nat),
{
    let mut r: Vec<Chunk> = Vec::new();
    let mut offset: u64 = 0;
    let mut index: usize = 0;
    let ghost c = chunk_size as nat;
    let ghost s = file_size as nat;
    while offset < file_size
        invariant
            chunk_size > 0,
            c == chunk_size as nat,
            s == file_size as nat,
            chunk_count(s, c) <= usize::MAX,
            offset <= file_size,
            offset < file_size ==> offset as nat == index as nat * c,
            offset == file_size ==> s <= index as nat * c,
            index > 0 ==> (index - 1) * c < s,
            r.len() == index,
            forall|i: int| 0 <= i < r.len() ==> (#[trigger] r[i].index, r[i].offset as nat, r[i].size as nat)
                == chunk_at(s, c, i as nat),
        decreases file_size - offset,
    {
        let remaining = file_size - offset;
        let size = if remaining < chunk_size { remaining } else { chunk_size };
        let ghost n = index as nat;
        assert((n + 1) * c == n * c + c) by (nonlinear_arith);
        assert(n < chunk_count(s, c)) by {
            let k = chunk_count(s, c);
            assert(n < k) by (nonlinear_arith)
                requires n * c < s, c > 0, k == (s + c - 1) / (c as int);
        }
        r.push(Chunk { index, offset, size });
        offset = offset + size;
        index = index + 1;
    }
    proof {
        lemma_count_bounds(s, c, index as nat);
    }
    r
}

} // verus!
