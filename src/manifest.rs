//! Per-file manifests: which shard holds which chunk of a stored file.
use vstd::prelude::*;
use crate::allocator::Placement;
use crate::chunker::{chunk_count, chunk_len, chunk_len_sum, plan_chunks};
use crate::naming::{blob_name, blob_name_spec};

verus! {

/// Where one chunk of a stored file lives.
#[derive(Clone, Debug)]
pub struct ChunkInfo {
    pub repo: String,
    pub path: String,
    pub size: u64,
    pub index: usize,
}

/// A stored file: its digest, its length and its chunks.
#[derive(Clone, Debug)]
pub struct FileMetadata {
    pub checksum: String,
    pub size: u64,
    pub chunks: Vec<ChunkInfo>,
}

/// A chunk record as plain values.
pub struct ChunkView {
    pub repo: Seq<char>,
    pub path: Seq<char>,
    pub size: nat,
    pub index: nat,
}

/// A manifest as plain values.
pub struct ManifestView {
    pub checksum: Seq<char>,
    pub size: nat,
    pub chunks: Seq<ChunkView>,
}

impl View for ChunkInfo {
    type V = ChunkView;

    open spec fn view(&self) -> ChunkView {
        ChunkView { repo: self.repo@, path: self.path@, size: self.size as nat, index: self.index as nat }
    }
}

impl View for FileMetadata {
    type V = ManifestView;

    open spec fn view(&self) -> ManifestView {
        ManifestView {
            checksum: self.checksum@,
            size: self.size as nat,
            chunks: self.chunks@.map_values(|c: ChunkInfo| c@),
        }
    }
}

/// Sum of the sizes of the chunk records.
pub open spec fn sizes_sum(chunks: Seq<ChunkView>) -> nat
    decreases chunks.len(),
{
    if chunks.len() == 0 { 0 } else { sizes_sum(chunks.drop_last()) + chunks.last().size }
}

/// Some record holds chunk index `i`.
pub open spec fn holds_index(chunks: Seq<ChunkView>, i: nat) -> bool {
    exists|j: int| 0 <= j < chunks.len() && #[trigger] chunks[j].index == i
}

/// `c` is one of the records.
pub open spec fn is_record_of(chunks: Seq<ChunkInfo>, c: ChunkView) -> bool {
    exists|j: int| 0 <= j < chunks.len() && #[trigger] chunks[j]@ == c
}

/// Every index `0..n` occurs among the `n` records.
pub open spec fn indices_cover(chunks: Seq<ChunkView>) -> bool {
    forall|i: nat| i < chunks.len() ==> #[trigger] holds_index(chunks, i)
}

/// A usable manifest: its records are chunks `0..n` and their sizes add up to the file's.
pub open spec fn manifest_wf(m: ManifestView) -> bool {
    indices_cover(m.chunks) && sizes_sum(m.chunks) == m.size
}

/// The record of chunk `i` as an upload of a `total`-byte file with digest `checksum` writes it.
pub open spec fn planned_record(checksum: Seq<char>, total: nat, c: nat, i: nat, repo: Seq<char>) -> ChunkView {
    ChunkView { repo: repo, path: blob_name_spec(checksum, i), size: chunk_len(total, c, i), index: i }
}

impl ChunkInfo {
    /// A copy of the record.
    pub fn copy(&self) -> (r: ChunkInfo)
        ensures
            r@ == self@,
    {
        ChunkInfo { repo: self.repo.clone(), path: self.path.clone(), size: self.size, index: self.index }
    }
}

proof fn lemma_planned_sum(total: nat, c: nat, chunks: Seq<ChunkView>, n: nat)
    requires
        n <= chunks.len(),
        forall|k: int| 0 <= k < chunks.len() ==> (#[trigger] chunks[k]).size == chunk_len(total, c, k as nat),
    ensures
        sizes_sum(chunks.take(n as int)) == chunk_len_sum(total, c, n),
    decreases n,
{
    if n > 0 {
        assert(chunks.take(n as int).drop_last() =~= chunks.take(n - 1));
        lemma_planned_sum(total, c, chunks, (n - 1) as nat);
    } else {
        assert(chunks.take(0) =~= Seq::<ChunkView>::empty());
    }
}

/// The manifest of an upload: chunk `i` of `file_size` bytes cut at `chunk_size` is stored as
/// blob `{checksum}_{i:04}.chunk` in the shard of `placements[i]`. It is well formed.
pub fn build_manifest(checksum: &str, file_size: u64, chunk_size: u64, placements: &Vec<Placement>) -> (r: FileMetadata)
    requires
        chunk_size > 0,
        placements.len() == chunk_count(file_size as nat, chunk_size as nat),
    ensures
        r@.checksum == checksum@,
        r@.size == file_size,
        r@.chunks.len() == placements.len(),
        forall|i: int| 0 <= i < placements.len() ==> #[trigger] r@.chunks[i]
            == planned_record(checksum@, file_size as nat, chunk_size as nat, i as nat, placements[i].repo@),
        manifest_wf(r@),
{
    let plan = plan_chunks(file_size, chunk_size);
    let mut chunks: Vec<ChunkInfo> = Vec::new();
    let mut i: usize = 0;
    while i < plan.len()
        invariant
            plan.len() == placements.len(),
            i <= plan.len(),
            chunks.len() == i,
            forall|k: int| 0 <= k < plan.len() ==> (#[trigger] plan[k].index, plan[k].offset as nat, plan[k].size as nat)
                == crate::chunker::chunk_at(file_size as nat, chunk_size as nat, k as nat),
            forall|k: int| 0 <= k < i ==> #[trigger] chunks@[k]@
                == planned_record(checksum@, file_size as nat, chunk_size as nat, k as nat, placements[k].repo@),
        decreases plan.len() - i,
    {
        let c = plan[i];
        assert(c.index == i);
        chunks.push(ChunkInfo { repo: placements[i].repo.clone(), path: blob_name(checksum, c.index), size: c.size, index: c.index });
        i = i + 1;
    }
    let r = FileMetadata { checksum: String::from_str(checksum), size: file_size, chunks };
    proof {
        let cv = r@.chunks;
        crate::chunker::lemma_chunk_plan(file_size as nat, chunk_size as nat);
        assert forall|k: int| 0 <= k < cv.len() implies (#[trigger] cv[k]).size == chunk_len(file_size as nat, chunk_size as nat, k as nat) by {
            assert(cv[k] == chunks@[k]@);
        }
        lemma_planned_sum(file_size as nat, chunk_size as nat, cv, cv.len());
        assert(cv.take(cv.len() as int) =~= cv);
        assert forall|n: nat| n < cv.len() implies #[trigger] holds_index(cv, n) by {
            assert(cv[n as int] == chunks@[n as int]@);
            assert(cv[n as int].index == n);
        }
    }
    r
}

/// Why a manifest cannot be used.
#[derive(Clone, Copy, Debug, PartialEq, Eq, Structural)]
pub enum ManifestError {
    /// No record holds this chunk index.
    MissingChunk(usize),
    /// The record sizes do not add up to the file size.
    SizeMismatch,
}

/// The records in index order: the `i`-th one is the record of chunk `i`. Fails on the first
/// index in `0..n` that no record holds.
pub fn order_chunks(chunks: &Vec<ChunkInfo>) -> (r: Result<Vec<ChunkInfo>, ManifestError>)
    ensures
        r is Ok <==> indices_cover(chunks@.map_values(|c: ChunkInfo| c@)),
        r matches Ok(v) ==> v.len() == chunks.len(),
        r matches Ok(v) ==> forall|i: int| 0 <= i < v.len() ==> (#[trigger] v[i]@).index == i
            && is_record_of(chunks@, v[i]@),
        r matches Err(e) ==> e matches ManifestError::MissingChunk(i) && i < chunks.len()
            && forall|j: int| 0 <= j < chunks.len() ==> #[trigger] chunks[j].index != i,
{
    let ghost cv = chunks@.map_values(|c: ChunkInfo| c@);
    let n = chunks.len();
    let mut out: Vec<ChunkInfo> = Vec::new();
    let mut i: usize = 0;
    while i < n
        invariant
            n == chunks.len(),
            cv == chunks@.map_values(|c: ChunkInfo| c@),
            i <= n,
            out.len() == i,
            forall|k: int| 0 <= k < i ==> (#[trigger] out[k]@).index == k && is_record_of(chunks@, out[k]@),
            forall|k: nat| k < i ==> #[trigger] holds_index(cv, k),
        decreases n - i,
    {
        let mut j: usize = 0;
        while j < n && chunks[j].index != i
            invariant
                n == chunks.len(),
                cv == chunks@.map_values(|c: ChunkInfo| c@),
                i < n,
                out.len() == i,
                forall|k: int| 0 <= k < i ==> (#[trigger] out[k]@).index == k && is_record_of(chunks@, out[k]@),
                forall|k: nat| k < i ==> #[trigger] holds_index(cv, k),
                j <= n,
                forall|b: int| 0 <= b < j ==> #[trigger] chunks[b].index != i,
            decreases n - j,
        {
            j = j + 1;
        }
        if j == n {
            proof {
                assert forall|b: int| 0 <= b < cv.len() implies #[trigger] cv[b].index != i as nat by {
                    assert(cv[b] == chunks[b]@);
                    assert(chunks[b].index != i);
                }
                assert(!holds_index(cv, i as nat));
            }
            return Err(ManifestError::MissingChunk(i));
        }
        let c = chunks[j].copy();
        proof {
            assert(cv[j as int] == chunks[j as int]@);
            assert(chunks@[j as int]@ == c@);
            assert(cv[j as int].index == i as nat);
            assert(holds_index(cv, i as nat));
        }
        out.push(c);
        i = i + 1;
    }
    assert(indices_cover(cv));
    Ok(out)
}

} // verus!

verus! {

proof fn lemma_sum_prefix_le(chunks: Seq<ChunkView>, i: int)
    requires
        0 <= i <= chunks.len(),
    ensures
        sizes_sum(chunks.take(i)) <= sizes_sum(chunks),
    decreases chunks.len() - i,
{
    if i < chunks.len() {
        lemma_sum_prefix_le(chunks, i + 1);
        assert(chunks.take(i + 1).drop_last() =~= chunks.take(i));
    } else {
        assert(chunks.take(i) =~= chunks);
    }
}

/// Checks a loaded manifest before download and gives its records in index order: every
/// index `0..n` must be recorded (else `MissingChunk`), and the sizes must add up to the file
/// size (else `SizeMismatch`).
pub fn check_manifest(meta: &FileMetadata) -> (r: Result<Vec<ChunkInfo>, ManifestError>)
    ensures
        r is Ok <==> manifest_wf(meta@),
        r matches Ok(v) ==> v.len() == meta.chunks.len() && forall|i: int| 0 <= i < v.len() ==> (#[trigger] v[i]@).index == i
            && is_record_of(meta.chunks@, v[i]@),
        r matches Err(e) ==> (e == ManifestError::SizeMismatch <==> indices_cover(meta@.chunks)),
{
    let ordered = match order_chunks(&meta.chunks) {
        Ok(v) => v,
        Err(e) => return Err(e),
    };
    let ghost cv = meta@.chunks;
    assert(indices_cover(cv));
    let n = meta.chunks.len();
    let mut acc: u64 = 0;
    let mut i: usize = 0;
    assert(cv.take(0) =~= Seq::<ChunkView>::empty());
    while i < n
        invariant
            n == meta.chunks.len(),
            cv == meta@.chunks,
            indices_cover(cv),
            i <= n,
            acc as nat == sizes_sum(cv.take(i as int)),
            acc <= meta.size,
        decreases n - i,
    {
        let s = meta.chunks[i].size;
        assert(cv.take(i + 1).drop_last() =~= cv.take(i as int));
        assert(cv[i as int].size == s);
        if s > meta.size - acc {
            proof {
                lemma_sum_prefix_le(cv, i + 1);
            }
            return Err(ManifestError::SizeMismatch);
        }
        acc = acc + s;
        i = i + 1;
    }
    assert(cv.take(n as int) =~= cv);
    if acc != meta.size {
        return Err(ManifestError::SizeMismatch);
    }
    Ok(ordered)
}

} // verus!
