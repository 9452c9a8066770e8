//! The version gate: whether a stored compatibility marker admits this build.
use vstd::prelude::*;

verus! {

/// The pieces of `s` between dots, in order; a string without a dot is one piece.
pub open spec fn split_dots(s: Seq<char>) -> Seq<Seq<char>>
    decreases s.len(),
{
    if s.len() == 0 {
        seq![Seq::empty()]
    } else {
        let p = split_dots(s.drop_last());
        if s.last() == '.' {
            p.push(Seq::empty())
        } else {
            p.update(p.len() - 1, p.last().push(s.last()))
        }
    }
}

/// `c` is a decimal digit.
pub open spec fn is_digit(c: char) -> bool {
    '0' <= c && c <= '9'
}

/// The value of the decimal digit `c`.
pub open spec fn digit_value(c: char) -> nat {
    (c as u32 - '0' as u32) as nat
}

/// The value of a string of decimal digits.
pub open spec fn digits_value(s: Seq<char>) -> nat
    decreases s.len(),
{
    if s.len() == 0 { 0 } else { digits_value(s.drop_last()) * 10 + digit_value(s.last()) }
}

/// What `str::parse::<u32>` gives: an optional `+`, then one or more decimal digits whose
/// value fits in a `u32`.
pub open spec fn parse_u32_spec(s: Seq<char>) -> Option<u32> {
    if number_body(s).len() == 0 || !all_digits(number_body(s)) {
        None
    } else if digits_value(number_body(s)) > u32::MAX {
        None
    } else {
        Some(digits_value(number_body(s)) as u32)
    }
}

/// `s` without its leading `+`, if it has one.
pub open spec fn number_body(s: Seq<char>) -> Seq<char> {
    if s.len() > 0 && s[0] == '+' { s.drop_first() } else { s }
}

/// Every character of `s` is a decimal digit.
pub open spec fn all_digits(s: Seq<char>) -> bool {
    forall|i: int| 0 <= i < s.len() ==> #[trigger] is_digit(s[i])
}

/// Whether a store marked with version `found` may be changed by a build of version
/// `current`: both have three dot-separated parts, the first two of each are numbers, the
/// majors are equal, and, where the current major is 0, the minors are equal too. The third
/// part is never read.
pub open spec fn compatible_spec(found: Seq<char>, current: Seq<char>) -> bool {
    let f = split_dots(found);
    let c = split_dots(current);
    if f.len() != 3 || c.len() != 3 {
        false
    } else {
        match (parse_u32_spec(f[0]), parse_u32_spec(f[1]), parse_u32_spec(c[0]), parse_u32_spec(c[1])) {
            (Some(fmaj), Some(fmin), Some(cmaj), Some(cmin)) => fmaj == cmaj && (cmaj == 0 ==> fmin == cmin),
            _ => false,
        }
    }
}

fn split_on_dots(s: &str) -> (r: Vec<Vec<char>>)
    ensures
        r@.map_values(|v: Vec<char>| v@) == split_dots(s@),
{
    let n = s.unicode_len();
    let mut done: Vec<Vec<char>> = Vec::new();
    let mut current: Vec<char> = Vec::new();
    let mut i: usize = 0;
    assert(s@.take(0) =~= Seq::<char>::empty());
    assert(done@.map_values(|v: Vec<char>| v@).push(current@) =~= seq![Seq::<char>::empty()]);
    while i < n
        invariant
            n == s@.len(),
            i <= n,
            done@.map_values(|v: Vec<char>| v@).push(current@) == split_dots(s@.take(i as int)),
        decreases n - i,
    {
        let c = s.get_char(i);
        let ghost before = done@.map_values(|v: Vec<char>| v@);
        let ghost cur = current@;
        assert(s@.take(i + 1).drop_last() =~= s@.take(i as int));
        assert(s@.take(i + 1).last() == c);
        if c == '.' {
            let finished = current;
            done.push(finished);
            current = Vec::new();
            assert(done@.map_values(|v: Vec<char>| v@) =~= before.push(cur));
            assert(done@.map_values(|v: Vec<char>| v@).push(current@) =~= before.push(cur).push(Seq::empty()));
        } else {
            current.push(c);
            assert(done@.map_values(|v: Vec<char>| v@).push(current@) =~= before.push(cur).update(before.len() as int, cur.push(c)));
        }
        i = i + 1;
    }
    assert(s@.take(n as int) =~= s@);
    done.push(current);
    done
}

proof fn lemma_digits_monotone(s: Seq<char>, i: int)
    requires
        0 <= i <= s.len(),
    ensures
        digits_value(s.take(i)) <= digits_value(s),
    decreases s.len() - i,
{
    if i < s.len() {
        lemma_digits_monotone(s, i + 1);
        assert(s.take(i + 1).drop_last() =~= s.take(i));
    } else {
        assert(s.take(i) =~= s);
    }
}

fn parse_u32(d: &Vec<char>) -> (r: Option<u32>)
    ensures
        r == parse_u32_spec(d@),
{
    let n = d.len();
    let start: usize = if n > 0 && d[0] == '+' { 1 } else { 0 };
    let ghost body = number_body(d@);
    assert(body =~= d@.subrange(start as int, n as int));
    if start == n {
        return None;
    }
    let mut acc: u64 = 0;
    let mut i: usize = start;
    assert(body.take(0) =~= Seq::<char>::empty());
    while i < n
        invariant
            start <= i <= n,
            n == d@.len(),
            body == d@.subrange(start as int, n as int),
            body == number_body(d@),
            forall|k: int| start <= k < i ==> #[trigger] is_digit(d@[k]),
            acc as nat == digits_value(body.take(i - start)),
            acc <= u32::MAX,
        decreases n - i,
    {
        let c = d[i];
        if !('0' <= c && c <= '9') {
            assert(!is_digit(body[i - start]));
            assert(!all_digits(body));
            return None;
        }
        let v = (c as u32 - '0' as u32) as u64;
        assert(body.take(i + 1 - start).drop_last() =~= body.take(i - start));
        acc = acc * 10 + v;
        i = i + 1;
        if acc > u32::MAX as u64 {
            proof {
                lemma_digits_monotone(body, i - start);
            }
            return None;
        }
    }
    assert(body.take(n - start) =~= body);
    Some(acc as u32)
}

/// The version gate. A store marked `found` may be changed by a build of version `current`
/// only where the majors match and, below 1.0, the minors match too.
pub fn versions_are_compatible(found: &str, current: &str) -> (r: bool)
    ensures
        r == compatible_spec(found@, current@),
{
    let f = split_on_dots(found);
    let c = split_on_dots(current);
    if f.len() != 3 || c.len() != 3 {
        return false;
    }
    let ghost fv = f@.map_values(|v: Vec<char>| v@);
    let ghost cv = c@.map_values(|v: Vec<char>| v@);
    assert(fv[0] == f[0]@ && fv[1] == f[1]@ && cv[0] == c[0]@ && cv[1] == c[1]@);
    let found_maj = match parse_u32(&f[0]) { Some(v) => v, None => return false };
    let found_min = match parse_u32(&f[1]) { Some(v) => v, None => return false };
    let curr_maj = match parse_u32(&c[0]) { Some(v) => v, None => return false };
    let curr_min = match parse_u32(&c[1]) { Some(v) => v, None => return false };
    if found_maj != curr_maj {
        return false;
    }
    if curr_maj == 0 && found_min != curr_min {
        return false;
    }
    true
}

} // verus!
