//! Whole-file digests and the checks made on a downloaded file.
use vstd::prelude::*;
use sha2::Digest;
use crate::chunker::{chunk_count, chunk_len};
use crate::manifest::FileMetadata;

verus! {

/// The SHA-256 digest of `data`, as lowercase hexadecimal.
pub uninterp spec fn sha256_hex_of(data: Seq<u8>) -> Seq<char>;

/// Relies on `sha2::Sha256::digest` and the `LowerHex` formatting of its output array:
/// the SHA-256 digest of the bytes, two lowercase hex digits per byte, 64 in all.
#[verifier::external_body]
fn digest_hex(data: &[u8]) -> (r: String)
    ensures
        r@ == sha256_hex_of(data@),
        r@.len() == 64,
{
    format!("{:x}", sha2::Sha256::digest(data))
}

/// The checksum of a file's contents, which names the file's blobs and is recorded in its
/// manifest.
pub fn sha256_hex(data: &[u8]) -> (r: String)
    ensures
        r@ == sha256_hex_of(data@),
        r@.len() == 64,
{
    digest_hex(data)
}

/// Why a downloaded file was rejected.
#[derive(Clone, Copy, Debug, PartialEq, Eq, Structural)]
pub enum DownloadError {
    /// The assembled file does not have the recorded length.
    SizeMismatch { expected: u64, actual: u64 },
    /// The assembled file does not have the recorded digest.
    ChecksumMismatch,
}

/// The verdict on a download of `written` bytes whose digest is `digest`, against a manifest
/// recording `size` and `checksum`: the size is checked first, then the digest.
pub open spec fn download_verdict(written: nat, digest: Seq<char>, size: nat, checksum: Seq<char>) -> Result<(), DownloadError> {
    if written != size {
        Err(DownloadError::SizeMismatch { expected: size as u64, actual: written as u64 })
    } else if digest != checksum {
        Err(DownloadError::ChecksumMismatch)
    } else {
        Ok(())
    }
}

/// Whether two strings hold the same characters.
pub fn same_text(a: &str, b: &str) -> (r: bool)
    ensures
        r == (a@ == b@),
{
    let n = a.unicode_len();
    if n != b.unicode_len() {
        return false;
    }
    let mut i: usize = 0;
    while i < n
        invariant
            n == a@.len(),
            n == b@.len(),
            i <= n,
            forall|k: int| 0 <= k < i ==> a@[k] == b@[k],
        decreases n - i,
    {
        if a.get_char(i) != b.get_char(i) {
            return false;
        }
        i = i + 1;
    }
    assert(a@ =~= b@);
    true
}

/// Checks a download of `total_written` bytes whose digest is `downloaded_checksum` against
/// its manifest: `SizeMismatch` where the length differs, else `ChecksumMismatch` where the
/// digest differs.
pub fn check_download(total_written: u64, downloaded_checksum: &str, meta: &FileMetadata) -> (r: Result<(), DownloadError>)
    ensures
        r == download_verdict(total_written as nat, downloaded_checksum@, meta.size as nat, meta.checksum@),
{
    if total_written != meta.size {
        return Err(DownloadError::SizeMismatch { expected: meta.size, actual: total_written });
    }
    if !same_text(downloaded_checksum, meta.checksum.as_str()) {
        return Err(DownloadError::ChecksumMismatch);
    }
    Ok(())
}

/// Checks assembled file contents against their manifest: the length first, and the digest
/// only where the length is right.
pub fn verify_assembled(assembled: &[u8], meta: &FileMetadata) -> (r: Result<(), DownloadError>)
    ensures
        r == download_verdict(assembled@.len(), sha256_hex_of(assembled@), meta.size as nat, meta.checksum@),
{
    let n = assembled.len();
    if n as u64 != meta.size {
        return Err(DownloadError::SizeMismatch { expected: meta.size, actual: n as u64 });
    }
    let digest = digest_hex(assembled);
    check_download(n as u64, digest.as_str(), meta)
}

/// The bytes of chunk `i` of `data` cut into `c`-byte chunks.
pub open spec fn chunk_payload(data: Seq<u8>, c: nat, i: nat) -> Seq<u8> {
    data.subrange((i * c) as int, (i * c + chunk_len(data.len(), c, i)) as int)
}

/// The bytes of chunk `index` of `data` cut into `chunk_size`-byte chunks: what is sent to the
/// chunk's shard.
pub fn chunk_bytes(data: &[u8], chunk_size: usize, index: usize) -> (r: Vec<u8>)
    requires
        chunk_size > 0,
        index < chunk_count(data@.len(), chunk_size as nat),
    ensures
        r@ == chunk_payload(data@, chunk_size as nat, index as nat),
{
    let ghost s = data@.len();
    let ghost c = chunk_size as nat;
    let ghost i = index as nat;
    let ghost k = chunk_count(s, c);
    assert(i * c < s) by (nonlinear_arith)
        requires i < k, k == (s + c - 1) / (c as int), c > 0;
    let n = data.len();
    assert((index as int) * (chunk_size as int) < n);
    let start = index * chunk_size;
    let left = n - start;
    let len = if left < chunk_size { left } else { chunk_size };
    assert((i + 1) * c == i * c + c) by (nonlinear_arith);
    assert(len as nat == chunk_len(s, c, i));
    let mut out: Vec<u8> = Vec::new();
    let mut j: usize = 0;
    while j < len
        invariant
            n == data@.len(),
            start as nat == i * c,
            start + len <= n,
            j <= len,
            out@ == data@.subrange(start as int, start + j),
        decreases len - j,
    {
        out.push(data[start + j]);
        j = j + 1;
        assert(out@ =~= data@.subrange(start as int, start + j));
    }
    out
}

/// The payloads of every chunk of `data`, in index order.
pub open spec fn chunk_payloads(data: Seq<u8>, c: nat) -> Seq<Seq<u8>> {
    Seq::new(chunk_count(data.len(), c), |i: int| chunk_payload(data, c, i as nat))
}

/// The payloads concatenated in order.
pub open spec fn assemble(parts: Seq<Seq<u8>>) -> Seq<u8>
    decreases parts.len(),
{
    if parts.len() == 0 { Seq::empty() } else { assemble(parts.drop_last()) + parts.last() }
}

proof fn lemma_assemble_prefix(data: Seq<u8>, c: nat, n: nat)
    requires
        c > 0,
        n <= chunk_count(data.len(), c),
    ensures
        n * c <= data.len() ==> assemble(chunk_payloads(data, c).take(n as int)) == data.take((n * c) as int),
        n * c > data.len() ==> assemble(chunk_payloads(data, c).take(n as int)) == data,
    decreases n,
{
    let s = data.len();
    let k = chunk_count(s, c);
    let parts = chunk_payloads(data, c);
    assert(k * c >= s && (k > 0 ==> (k - 1) * c < s)) by (nonlinear_arith)
        requires k == (s + c - 1) / (c as int), c > 0;
    if n == 0 {
        assert(parts.take(0) =~= Seq::<Seq<u8>>::empty());
        assert(data.take(0) =~= Seq::<u8>::empty());
    } else {
        let m = (n - 1) as nat;
        lemma_assemble_prefix(data, c, m);
        assert(parts.take(n as int).drop_last() =~= parts.take(m as int));
        assert(m * c < s) by (nonlinear_arith)
            requires m < k, k > 0 ==> (k - 1) * c < s, c > 0;
        assert(n * c == m * c + c) by (nonlinear_arith)
            requires n == m + 1;
        if n * c <= s {
            assert(data.take((n * c) as int) =~= data.take((m * c) as int) + chunk_payload(data, c, m));
        } else {
            assert(data =~= data.take((m * c) as int) + chunk_payload(data, c, m));
        }
    }
}

/// Round trip: cutting a file into chunks and concatenating the chunks in index order gives
/// the file back, and the result passes both download checks against the size and digest
/// recorded at upload.
pub proof fn lemma_round_trip(data: Seq<u8>, c: nat)
    requires
        c > 0,
    ensures
        assemble(chunk_payloads(data, c)) == data,
        download_verdict(assemble(chunk_payloads(data, c)).len(), sha256_hex_of(assemble(chunk_payloads(data, c))),
            data.len(), sha256_hex_of(data)) == Ok::<(), DownloadError>(()),
{
    let k = chunk_count(data.len(), c);
    lemma_assemble_prefix(data, c, k);
    let parts = chunk_payloads(data, c);
    assert(parts.take(k as int) =~= parts);
    if k * c <= data.len() {
        assert(k * c >= data.len()) by (nonlinear_arith)
            requires k == (data.len() + c - 1) / (c as int), c > 0;
        assert(data.take((k * c) as int) =~= data);
    }
}

proof fn lemma_shorter_part(parts: Seq<Seq<u8>>, k: int, shorter: Seq<u8>)
    requires
        0 <= k < parts.len(),
        shorter.len() < parts[k].len(),
    ensures
        assemble(parts.update(k, shorter)).len() < assemble(parts).len(),
    decreases parts.len(),
{
    let q = parts.update(k, shorter);
    if k == parts.len() - 1 {
        assert(q.drop_last() =~= parts.drop_last());
    } else {
        assert(q.drop_last() =~= parts.drop_last().update(k, shorter));
        lemma_shorter_part(parts.drop_last(), k, shorter);
    }
}

/// A truncated blob is caught: where chunk `k`'s payload arrives shorter than it was sent,
/// the download fails with `SizeMismatch`, whatever the digest of what arrived.
pub proof fn lemma_truncated_blob_rejected(data: Seq<u8>, c: nat, k: int, cut: Seq<u8>, digest: Seq<char>)
    requires
        c > 0,
        0 <= k < chunk_count(data.len(), c),
        cut.len() < chunk_payload(data, c, k as nat).len(),
    ensures
        download_verdict(assemble(chunk_payloads(data, c).update(k, cut)).len(), digest, data.len(), sha256_hex_of(data))
            matches Err(DownloadError::SizeMismatch { .. }),
{
    lemma_round_trip(data, c);
    lemma_shorter_part(chunk_payloads(data, c), k, cut);
}

} // verus!
