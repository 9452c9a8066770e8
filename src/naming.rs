//! Decimal rendering of numbers and the names built from them.
use vstd::prelude::*;

verus! {

/// The character of a decimal digit.
pub open spec fn digit_char(d: nat) -> char {
    if d == 0 { '0' } else if d == 1 { '1' } else if d == 2 { '2' } else if d == 3 { '3' }
    else if d == 4 { '4' } else if d == 5 { '5' } else if d == 6 { '6' } else if d == 7 { '7' }
    else if d == 8 { '8' } else { '9' }
}

/// The decimal digits of `n`, most significant first, without leading zeros.
pub open spec fn decimal(n: nat) -> Seq<char>
    decreases n,
{
    if n < 10 {
        seq![digit_char(n)]
    } else {
        decimal(n / 10).push(digit_char(n % 10))
    }
}

/// `decimal(n)` preceded by zeros up to `width` characters.
pub open spec fn decimal_padded(n: nat, width: nat) -> Seq<char> {
    let d = decimal(n);
    if d.len() >= width {
        d
    } else {
        Seq::new((width - d.len()) as nat, |i: int| '0') + d
    }
}

fn digit_str(d: u64) -> (r: &'static str)
    requires
        d < 10,
    ensures
        r@ == seq![digit_char(d as nat)],
{
    proof {
        reveal_strlit("0");
        reveal_strlit("1");
        reveal_strlit("2");
        reveal_strlit("3");
        reveal_strlit("4");
        reveal_strlit("5");
        reveal_strlit("6");
        reveal_strlit("7");
        reveal_strlit("8");
        reveal_strlit("9");
    }
    if d == 0 { "0" } else if d == 1 { "1" } else if d == 2 { "2" } else if d == 3 { "3" }
    else if d == 4 { "4" } else if d == 5 { "5" } else if d == 6 { "6" } else if d == 7 { "7" }
    else if d == 8 { "8" } else { "9" }
}

/// Appends the decimal digits of `n`, zero-padded to `width`, to `out`.
pub fn push_decimal(out: &mut String, n: u64, width: usize)
    ensures
        final(out)@ == old(out)@ + decimal_padded(n as nat, width as nat),
    decreases n,
{
    if n < 10 {
        let mut k: usize = 1;
        while k < width
            invariant
                1 <= k,
                k <= width || k == 1,
                out@ == old(out)@ + Seq::new((k - 1) as nat, |i: int| '0'),
            decreases width - k,
        {
            proof {
                reveal_strlit("0");
            }
            out.append("0");
            k = k + 1;
            assert(out@ =~= old(out)@ + Seq::new((k - 1) as nat, |i: int| '0'));
        }
        out.append(digit_str(n));
        assert(out@ =~= old(out)@ + decimal_padded(n as nat, width as nat));
    } else {
        push_decimal(out, n / 10, if width > 0 { width - 1 } else { 0 });
        out.append(digit_str(n % 10));
        assert(out@ =~= old(out)@ + decimal_padded(n as nat, width as nat));
    }
}

} // verus!

verus! {

/// Name of the blob that holds chunk `index` of the file whose digest is `checksum`.
pub open spec fn blob_name_spec(checksum: Seq<char>, index: nat) -> Seq<char> {
    checksum + seq!['_'] + decimal_padded(index, 4) + seq!['.', 'c', 'h', 'u', 'n', 'k']
}

/// Name of the shard with counter value `id`.
pub open spec fn shard_name_spec(id: nat) -> Seq<char> {
    seq!['s', 't', 'o', 'r', 'a', 'g', 'e', '-'] + decimal_padded(id, 4)
}

/// `{checksum}_{index:04}.chunk`: content-addressed and unique per file and index.
pub fn blob_name(checksum: &str, index: usize) -> (r: String)
    ensures
        r@ == blob_name_spec(checksum@, index as nat),
{
    proof {
        reveal_strlit("_");
        reveal_strlit(".chunk");
    }
    let mut out = String::from_str(checksum);
    out.append("_");
    push_decimal(&mut out, index as u64, 4);
    out.append(".chunk");
    assert(out@ =~= blob_name_spec(checksum@, index as nat));
    out
}

/// `storage-{id:04}`.
pub fn shard_name(id: usize) -> (r: String)
    ensures
        r@ == shard_name_spec(id as nat),
{
    proof {
        reveal_strlit("storage-");
    }
    let mut out = String::from_str("storage-");
    push_decimal(&mut out, id as u64, 4);
    assert(out@ =~= shard_name_spec(id as nat));
    out
}

} // verus!
