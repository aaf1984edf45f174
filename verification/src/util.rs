//! Small byte-string helpers shared across the crate.

use crate::frame::{digits_val, is_digit};
use vstd::prelude::*;

verus! {

broadcast use vstd::std_specs::vec::group_vec_axioms;

/// Whether two byte strings hold the same bytes.
pub fn bytes_eq(a: &Vec<u8>, b: &Vec<u8>) -> (r: bool)
    ensures
        r == (a@ == b@),
{
    if a.len() != b.len() {
        proof {
            assert(a@ != b@);
        }
        return false;
    }
    let mut i: usize = 0;
    while i < a.len()
        invariant
            a@.len() == b@.len(),
            i <= a@.len(),
            forall|j: int| 0 <= j < i ==> a@[j] == #[trigger] b@[j],
        decreases a@.len() - i,
    {
        if a[i] != b[i] {
            proof {
                assert(a@[i as int] != b@[i as int]);
            }
            return false;
        }
        i = i + 1;
    }
    proof {
        assert(a@ =~= b@);
    }
    true
}

/// ASCII lowercase of one byte.
pub open spec fn lower_byte(b: u8) -> u8 {
    if 65 <= b <= 90 {
        (b + 32) as u8
    } else {
        b
    }
}

/// ASCII lowercase of a byte string; bytes outside 'A'..'Z' are kept.
pub open spec fn lower_ascii(s: Seq<u8>) -> Seq<u8> {
    Seq::new(s.len(), |i: int| lower_byte(s[i]))
}

/// Lowercase a byte string, ASCII-only (command and option names are
/// ASCII tokens).
pub fn to_lower(v: &Vec<u8>) -> (r: Vec<u8>)
    ensures
        r@ == lower_ascii(v@),
{
    let mut out: Vec<u8> = Vec::new();
    let mut i: usize = 0;
    while i < v.len()
        invariant
            i <= v@.len(),
            out@ == lower_ascii(v@).take(i as int),
        decreases v@.len() - i,
    {
        let b = v[i];
        if 65 <= b && b <= 90 {
            out.push(b + 32);
        } else {
            out.push(b);
        }
        i = i + 1;
        proof {
            assert(out@ =~= lower_ascii(v@).take(i as int));
        }
    }
    proof {
        assert(lower_ascii(v@).take(v@.len() as int) =~= lower_ascii(v@));
    }
    out
}

/// Append every byte of `src` to `out`.
pub fn extend_bytes(out: &mut Vec<u8>, src: &Vec<u8>)
    ensures
        final(out)@ == old(out)@ + src@,
{
    let ghost base = out@;
    let mut i: usize = 0;
    while i < src.len()
        invariant
            i <= src@.len(),
            out@ == base + src@.take(i as int),
        decreases src@.len() - i,
    {
        out.push(src[i]);
        i = i + 1;
        proof {
            assert(out@ =~= base + src@.take(i as int));
        }
    }
    proof {
        assert(base + src@.take(src@.len() as int) =~= base + src@);
    }
}

/// A copy of a byte string.
pub fn clone_bytes(v: &Vec<u8>) -> (r: Vec<u8>)
    ensures
        r@ == v@,
{
    let r = crate::frame::copy_range(v, 0, v.len());
    proof {
        assert(v@.subrange(0, v@.len() as int) =~= v@);
    }
    r
}

/// The text with an optional leading `+` removed.
pub open spec fn plus_stripped(s: Seq<u8>) -> Seq<u8> {
    if s.len() >= 1 && s[0] == 43 {
        s.skip(1)
    } else {
        s
    }
}

/// The reading of a millisecond count as the client types it: the
/// whole text must be an optional `+` followed by one or more decimal
/// digits whose value fits in a `u64`; anything else is rejected.
pub open spec fn spec_ms_str(s: Seq<u8>) -> Option<u64> {
    let digits = plus_stripped(s);
    if digits.len() == 0 {
        Option::None
    } else if exists|i: int| 0 <= i < digits.len() && !is_digit(#[trigger] digits[i]) {
        Option::None
    } else if digits_val(digits) > u64::MAX {
        Option::None
    } else {
        Option::Some(digits_val(digits) as u64)
    }
}

/// Parse a millisecond count from its decimal text, as the client's
/// expiry argument is given: the whole text, optionally signed `+`.
#[verifier::loop_isolation(false)]
pub fn duration_from_ms_str(src: &Vec<u8>) -> (r: Option<u64>)
    ensures
        r == spec_ms_str(src@),
{
    let start: usize = if src.len() >= 1 && src[0] == 43 {
        1
    } else {
        0
    };
    let ghost digits = plus_stripped(src@);
    proof {
        assert forall|j: int| 0 <= j < digits.len() implies #[trigger] digits[j] == src@[j
            + start] by {
            if start == 1 {
                assert(src@.skip(1)[j] == src@[j + 1]);
            }
        }
    }
    if src.len() == start {
        return Option::None;
    }
    let mut i = start;
    while i < src.len()
        invariant
            start <= i <= src@.len(),
            forall|j: int| start <= j < i ==> is_digit(#[trigger] src@[j]),
        decreases src@.len() - i,
    {
        let b = src[i];
        if !(48 <= b && b <= 57) {
            proof {
                assert(digits[i - start] == src@[i - start + start]);
                assert(0 <= i - start < digits.len() && !is_digit(digits[i - start]));
            }
            return Option::None;
        }
        i = i + 1;
    }
    let tail = crate::frame::copy_range(src, start, src.len());
    proof {
        assert forall|j: int| 0 <= j < digits.len() implies is_digit(#[trigger] digits[j]) by {
            assert(digits[j] == src@[j + start]);
        }
        crate::frame::lemma_leading_digits_all(digits);
        assert(digits.take(digits.len() as int) =~= digits);
        assert(tail@ =~= digits);
    }
    crate::frame::parse_decimal(&tail)
}

} // verus!
