//! Percent-decoding of the parts of a request target.
use vstd::prelude::*;
use crate::encoding::{decode, text};
use crate::error::Error;

verus! {

pub const PERCENT: u8 = 37;

/// The value of a hexadecimal digit, in either case.
pub open spec fn hex_digit(b: u8) -> Option<u8> {
    if 48 <= b <= 57 {
        Some((b - 48) as u8)
    } else if 65 <= b <= 70 {
        Some((b - 55) as u8)
    } else if 97 <= b <= 102 {
        Some((b - 87) as u8)
    } else {
        None
    }
}

/// Whether `s` begins with an escape: `%` and two hexadecimal digits.
pub open spec fn starts_with_escape(s: Seq<u8>) -> bool {
    &&& s.len() >= 3
    &&& s[0] == PERCENT
    &&& hex_digit(s[1]) is Some
    &&& hex_digit(s[2]) is Some
}

/// `s` with every escape replaced by the byte that it stands for. A `%` that
/// begins no escape stands for itself.
pub open spec fn percent_decode(s: Seq<u8>) -> Seq<u8>
    decreases s.len(),
{
    if s.len() == 0 {
        Seq::empty()
    } else if starts_with_escape(s) {
        seq![(hex_digit(s[1])->0 * 16 + hex_digit(s[2])->0) as u8] + percent_decode(
            s.subrange(3, s.len() as int),
        )
    } else {
        seq![s[0]] + percent_decode(s.drop_first())
    }
}

/// The text of a percent-encoded part: its escapes resolved, and the bytes
/// that result read as UTF-8. `None` where they are not UTF-8.
pub open spec fn component(s: Seq<u8>) -> Option<Seq<char>> {
    text(percent_decode(s))
}

/// The value of a hexadecimal digit.
pub fn hex_value(b: u8) -> (r: Option<u8>)
    ensures
        r == hex_digit(b),
{
    if 48 <= b && b <= 57 {
        Some(b - 48)
    } else if 65 <= b && b <= 70 {
        Some(b - 55)
    } else if 97 <= b && b <= 102 {
        Some(b - 87)
    } else {
        None
    }
}

/// Resolves the escapes in `s`.
pub fn percent_decode_bytes(s: &[u8]) -> (out: Vec<u8>)
    ensures
        out@ == percent_decode(s@),
{
    let mut out: Vec<u8> = Vec::new();
    let mut i: usize = 0;
    assert(s@.subrange(0, s@.len() as int) =~= s@);
    assert(out@ + percent_decode(s@) =~= percent_decode(s@));
    while i < s.len()
        invariant
            i <= s@.len(),
            out@ + percent_decode(s@.subrange(i as int, s@.len() as int)) == percent_decode(s@),
        decreases s@.len() - i,
    {
        let ghost rest = s@.subrange(i as int, s@.len() as int);
        let ghost before = out@;
        let mut byte: u8 = s[i];
        let mut width: usize = 1;
        if s[i] == PERCENT && s.len() - i >= 3 {
            let high = hex_value(s[i + 1]);
            let low = hex_value(s[i + 2]);
            if high.is_some() && low.is_some() {
                byte = high.unwrap() * 16 + low.unwrap();
                width = 3;
            }
        }
        out.push(byte);
        proof {
            let after = s@.subrange(i + width, s@.len() as int);
            assert(rest[0] == s@[i as int]);
            if rest.len() >= 3 {
                assert(rest[1] == s@[i + 1]);
                assert(rest[2] == s@[i + 2]);
                assert(rest.subrange(3, rest.len() as int) =~= s@.subrange(
                    i + 3,
                    s@.len() as int,
                ));
            }
            assert(rest.drop_first() =~= s@.subrange(i + 1, s@.len() as int));
            assert(percent_decode(rest) == seq![byte] + percent_decode(after));
            assert(out@ + percent_decode(after) =~= before + (seq![byte] + percent_decode(after)));
        }
        i += width;
    }
    assert(out@ + Seq::<u8>::empty() =~= out@);
    out
}

/// Reads a percent-encoded part of a target as text.
pub fn decode_component(s: &[u8]) -> (r: Result<String, Error>)
    ensures
        match r {
            Ok(t) => component(s@) == Some(t@),
            Err(e) => component(s@) is None && e == Error::EncodingError,
        },
{
    let bytes = percent_decode_bytes(s);
    decode(bytes.as_slice())
}

} // verus!
