//! Byte-level search and tolerant integer parsing.
use vstd::prelude::*;

verus! {

/// `needle` occurs in `hay` starting at byte `p`.
pub open spec fn occurs_at(hay: Seq<u8>, p: int, needle: Seq<u8>) -> bool {
    0 <= p && p + needle.len() <= hay.len() && hay.subrange(p, p + needle.len()) == needle
}

/// The first position at or after `from` where `needle` occurs, if any.
pub open spec fn first_from(hay: Seq<u8>, from: int, needle: Seq<u8>) -> Option<int>
    decreases hay.len() + 1 - from,
{
    if from < 0 || from + needle.len() > hay.len() {
        None
    } else if occurs_at(hay, from, needle) {
        Some(from)
    } else {
        first_from(hay, from + 1, needle)
    }
}

/// Finds the first occurrence of `needle` in `hay` at or after `from`.
pub fn find_from(hay: &[u8], from: usize, needle: &[u8]) -> (r: Option<usize>)
    ensures
        match r {
            Some(p) => first_from(hay@, from as int, needle@) == Some(p as int),
            None => first_from(hay@, from as int, needle@) is None,
        },
{
    if from > hay.len() || needle.len() > hay.len() - from {
        return None;
    }
    let mut i: usize = from;
    while needle.len() <= hay.len() - i
        invariant
            from <= i,
            i <= hay@.len(),
            first_from(hay@, from as int, needle@) == first_from(hay@, i as int, needle@),
        decreases hay@.len() - i,
    {
        let mut j: usize = 0;
        let mut same = true;
        while j < needle.len()
            invariant
                i + needle@.len() <= hay.len(),
                j <= needle@.len(),
                same == (forall|k: int| 0 <= k < j ==> hay@[i + k] == needle@[k]),
            decreases needle@.len() - j,
        {
            if hay[i + j] != needle[j] {
                same = false;
            }
            j = j + 1;
        }
        if same {
            assert(hay@.subrange(i as int, i + needle@.len()) =~= needle@);
            return Some(i);
        }
        assert(!occurs_at(hay@, i as int, needle@)) by {
            let k = choose|k: int| 0 <= k < needle@.len() && hay@[i + k] != needle@[k];
            assert(hay@.subrange(i as int, i + needle@.len())[k] != needle@[k]);
        }
        i = i + 1;
    }
    None
}

pub open spec fn is_digit(b: u8) -> bool {
    48 <= b <= 57
}

pub open spec fn all_digits(s: Seq<u8>) -> bool {
    forall|i: int| 0 <= i < s.len() ==> is_digit(#[trigger] s[i])
}

/// The value of a string of decimal digits.
pub open spec fn decimal(s: Seq<u8>) -> int
    decreases s.len(),
{
    if s.len() == 0 {
        0
    } else {
        decimal(s.drop_last()) * 10 + (s.last() - 48)
    }
}

/// The integer that `s` spells: an optional `+` or `-` and one or more
/// decimal digits, and nothing else.
pub open spec fn integer_text(s: Seq<u8>) -> Option<int> {
    if s.len() > 0 && (s[0] == 45 || s[0] == 43) {
        let digits = s.drop_first();
        if digits.len() > 0 && all_digits(digits) {
            Some(if s[0] == 45 { -decimal(digits) } else { decimal(digits) })
        } else {
            None
        }
    } else if s.len() > 0 && all_digits(s) {
        Some(decimal(s))
    } else {
        None
    }
}

/// The field value that `s` stands for: the 32-bit integer it spells, or
/// -1 where it spells none (not a number, or out of range).
pub open spec fn field_value(s: Seq<u8>) -> i32 {
    match integer_text(s) {
        Some(v) => if i32::MIN <= v <= i32::MAX { v as i32 } else { -1i32 },
        None => -1i32,
    }
}

proof fn lemma_decimal_nonneg(s: Seq<u8>)
    requires
        all_digits(s),
    ensures
        decimal(s) >= 0,
    decreases s.len(),
{
    if s.len() > 0 {
        lemma_decimal_nonneg(s.drop_last());
    }
}

/// A longer digit string spells at least as much as its prefix.
proof fn lemma_decimal_prefix(s: Seq<u8>, k: int)
    requires
        all_digits(s),
        0 <= k <= s.len(),
    ensures
        decimal(s.take(k)) <= decimal(s),
    decreases s.len() - k,
{
    if k < s.len() {
        let t = s.take(k + 1);
        assert(t.drop_last() =~= s.take(k));
        lemma_decimal_nonneg(s.take(k));
        lemma_decimal_prefix(s, k + 1);
    } else {
        assert(s.take(k) =~= s);
    }
}

/// Parses the bytes `s[lo..hi]` as an `i32`; -1 where they spell none.
pub fn parse_field(s: &[u8], lo: usize, hi: usize) -> (r: i32)
    requires
        lo <= hi <= s@.len(),
    ensures
        r == field_value(s@.subrange(lo as int, hi as int)),
{
    let ghost w = s@.subrange(lo as int, hi as int);
    if lo == hi {
        return -1;
    }
    let mut start: usize = lo;
    let neg = s[lo] == 45u8;
    if s[lo] == 45u8 || s[lo] == 43u8 {
        start = lo + 1;
        if start == hi {
            return -1;
        }
    }
    let ghost d = s@.subrange(start as int, hi as int);
    assert(w[0] == 45 || w[0] == 43 ==> d =~= w.drop_first());
    assert(!(w[0] == 45 || w[0] == 43) ==> d =~= w);
    // magnitude of the digits read so far, bounded so that it fits
    let mut acc: i64 = 0;
    let mut i: usize = start;
    while i < hi
        invariant
            lo <= start < hi <= s@.len(),
            start <= i <= hi,
            d == s@.subrange(start as int, hi as int),
            w == s@.subrange(lo as int, hi as int),
            w.len() > 0,
            neg == (w[0] == 45),
            w[0] == 45 || w[0] == 43 ==> d == w.drop_first(),
            !(w[0] == 45 || w[0] == 43) ==> d == w,
            all_digits(d.take(i - start)),
            acc as int == decimal(d.take(i - start)),
            0 <= acc <= 2147483648,
        decreases hi - i,
    {
        let b = s[i];
        if b < 48u8 || b > 57u8 {
            assert(!all_digits(d)) by {
                assert(d[i - start] == b);
            }
            return -1;
        }
        assert(d.take(i - start + 1).drop_last() =~= d.take(i - start));
        let next: i64 = acc * 10 + (b - 48u8) as i64;
        assert(all_digits(d.take(i - start + 1)));
        if next > 2147483648 {
            proof {
                if all_digits(d) {
                    lemma_decimal_prefix(d, i - start + 1);
                }
            }
            return -1;
        }
        acc = next;
        i = i + 1;
    }
    assert(d.take(i - start) =~= d);
    if neg {
        (-acc) as i32
    } else if acc > 2147483647 {
        -1
    } else {
        acc as i32
    }
}

} // verus!
