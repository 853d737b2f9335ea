//! Reading a signed decimal integer from a run of ASCII bytes.

use crate::model::{DecodeError, DecodeErrorType, DecodeErrorView};
use vstd::prelude::*;

verus! {

pub const MINUS: u8 = 0x2d;

pub const ZERO: u8 = 0x30;

pub const NINE: u8 = 0x39;

pub const MSG_NOTHING: &'static str = "Nothing to decode";

pub const MSG_NO_DIGIT: &'static str = "Can't decode integer: no digit after '-'";

pub const MSG_NOT_A_DIGIT: &'static str = "Can't decode integer: not a digit";

pub const MSG_OUT_OF_RANGE: &'static str = "Can't decode integer: value does not fit 64 bits";

/// Whether `b` is one of the ASCII digits `0` to `9`.
pub open spec fn is_digit(b: u8) -> bool {
    ZERO <= b <= NINE
}

/// Whether `s` is made of ASCII digits only.
pub open spec fn all_digits(s: Seq<u8>) -> bool {
    forall|i: int| 0 <= i < s.len() ==> is_digit(#[trigger] s[i])
}

/// The index of the first byte of `s` that is no digit, or `s.len()` if
/// there is none.
pub open spec fn first_non_digit(s: Seq<u8>) -> nat
    decreases s.len(),
{
    if s.len() == 0 || !is_digit(s[0]) {
        0
    } else {
        1 + first_non_digit(s.skip(1))
    }
}

/// The number that the digits of `s` spell, most significant digit first.
/// Leading zeros count for nothing; the empty run spells zero.
pub open spec fn digits_value(s: Seq<u8>) -> nat
    decreases s.len(),
{
    if s.len() == 0 {
        0
    } else {
        digits_value(s.drop_last()) * 10 + (s.last() - ZERO) as nat
    }
}

/// Whether `s` opens with a minus sign.
pub open spec fn has_sign(s: Seq<u8>) -> bool {
    s.len() > 0 && s[0] == MINUS
}

/// The digits of `s`: all of it but a leading minus sign.
pub open spec fn unsigned_part(s: Seq<u8>) -> Seq<u8> {
    if has_sign(s) {
        s.skip(1)
    } else {
        s
    }
}

/// The integer that `s` spells: an optional minus sign, then digits.
pub open spec fn signed_value(s: Seq<u8>) -> int {
    if has_sign(s) {
        -(digits_value(unsigned_part(s)) as int)
    } else {
        digits_value(unsigned_part(s)) as int
    }
}

/// Whether `s` is an optional minus sign followed by at least one digit and
/// nothing else. Leading zeros and a negative zero are accepted.
pub open spec fn is_integer_text(s: Seq<u8>) -> bool {
    unsigned_part(s).len() > 0 && all_digits(unsigned_part(s))
}

/// The failure to read an integer from no bytes at all.
pub open spec fn nothing_to_decode() -> DecodeErrorView {
    DecodeErrorView {
        offset: 0,
        msg: MSG_NOTHING@,
        error_type: DecodeErrorType::NothingToDecode,
    }
}

/// The failure to read an integer from a minus sign alone, at the offset
/// where a digit should stand.
pub open spec fn missing_digits() -> DecodeErrorView {
    DecodeErrorView {
        offset: 1,
        msg: MSG_NO_DIGIT@,
        error_type: DecodeErrorType::InvalidIntegerValue,
    }
}

/// The failure to read an integer whose byte at offset `at` is no digit.
pub open spec fn not_a_digit(at: nat) -> DecodeErrorView {
    DecodeErrorView {
        offset: at,
        msg: MSG_NOT_A_DIGIT@,
        error_type: DecodeErrorType::InvalidIntegerValue,
    }
}

/// The failure to read an integer that lies outside the signed 64-bit
/// range.
pub open spec fn out_of_range() -> DecodeErrorView {
    DecodeErrorView {
        offset: 0,
        msg: MSG_OUT_OF_RANGE@,
        error_type: DecodeErrorType::InvalidIntegerValue,
    }
}

/// What reading an integer from `s` gives.
///
/// The empty run is `NothingToDecode`. A lone minus sign, a byte that is no
/// digit (reported at the first such byte) and a value outside the signed
/// 64-bit range are `InvalidIntegerValue`. Everything else is the value
/// spelled.
pub open spec fn spec_ascii_integer(s: Seq<u8>) -> Result<int, DecodeErrorView> {
    let digits = unsigned_part(s);
    if s.len() == 0 {
        Err(nothing_to_decode())
    } else if digits.len() == 0 {
        Err(missing_digits())
    } else if !all_digits(digits) {
        Err(not_a_digit((s.len() - digits.len() + first_non_digit(digits)) as nat))
    } else if !(i64::MIN <= signed_value(s) <= i64::MAX) {
        Err(out_of_range())
    } else {
        Ok(signed_value(s))
    }
}

/// The model of what `decode_ascii_integer` returns.
pub open spec fn integer_outcome(r: Result<i64, DecodeError>) -> Result<int, DecodeErrorView> {
    match r {
        Ok(value) => Ok(value as int),
        Err(e) => Err(e@),
    }
}

/// A run spells at least as much as any of its prefixes.
pub proof fn lemma_digits_value_prefix(s: Seq<u8>, k: int)
    requires
        0 <= k <= s.len(),
        all_digits(s),
    ensures
        digits_value(s.subrange(0, k)) <= digits_value(s),
    decreases s.len(),
{
    if k == s.len() {
        assert(s.subrange(0, k) == s);
    } else {
        assert(s.drop_last().subrange(0, k) == s.subrange(0, k));
        assert(is_digit(s.last()));
        lemma_digits_value_prefix(s.drop_last(), k);
    }
}

/// `first_non_digit` is where the digits of `s` stop.
pub proof fn lemma_first_non_digit(s: Seq<u8>, at: int)
    requires
        0 <= at <= s.len(),
        all_digits(s.subrange(0, at)),
        at < s.len() ==> !is_digit(s[at]),
    ensures
        first_non_digit(s) == at,
        at == s.len() <==> all_digits(s),
    decreases s.len(),
{
    if at == 0 {
        if s.len() > 0 {
            assert(!is_digit(s[0]));
        }
    } else {
        assert(s.subrange(0, at)[0] == s[0]);
        assert forall|i: int| 0 <= i < at - 1 implies is_digit(
            #[trigger] s.skip(1).subrange(0, at - 1)[i],
        ) by {
            assert(s.subrange(0, at)[i + 1] == s[i + 1]);
        }
        lemma_first_non_digit(s.skip(1), at - 1);
        if at == s.len() {
            assert(s.subrange(0, at) == s);
        } else {
            assert(!is_digit(s[at]));
        }
    }
}

/// Reads a signed decimal integer: an optional `-`, then digits.
///
/// Leading zeros and `-0` are accepted. A value outside the signed 64-bit
/// range is refused rather than wrapped.
#[verifier::loop_isolation(false)]
pub fn decode_ascii_integer(data: &[u8]) -> (r: Result<i64, DecodeError>)
    ensures
        integer_outcome(r) == spec_ascii_integer(data@),
{
    let len = data.len();
    if len == 0 {
        return Err(
            DecodeError {
                msg: MSG_NOTHING,
                offset: 0,
                error_type: DecodeErrorType::NothingToDecode,
            },
        );
    }
    let negative = data[0] == MINUS;
    let start: usize = if negative {
        1
    } else {
        0
    };
    if start == len {
        return Err(
            DecodeError {
                msg: MSG_NO_DIGIT,
                offset: 1,
                error_type: DecodeErrorType::InvalidIntegerValue,
            },
        );
    }
    let ghost digits = unsigned_part(data@);
    assert(digits == data@.subrange(start as int, len as int));

    let mut at: usize = start;
    while at < len
        invariant
            start <= at <= len,
            all_digits(digits.subrange(0, at - start)),
        decreases len - at,
    {
        if data[at] < ZERO || data[at] > NINE {
            proof {
                assert(digits[at - start] == data@[at as int]);
                lemma_first_non_digit(digits, at - start);
            }
            return Err(
                DecodeError {
                    msg: MSG_NOT_A_DIGIT,
                    offset: at,
                    error_type: DecodeErrorType::InvalidIntegerValue,
                },
            );
        }
        proof {
            assert forall|i: int| 0 <= i < at + 1 - start implies is_digit(
                #[trigger] digits.subrange(0, at + 1 - start)[i],
            ) by {
                if i < at - start {
                    assert(digits.subrange(0, at - start)[i] == digits[i]);
                }
            }
        }
        at += 1;
    }
    proof {
        lemma_first_non_digit(digits, len - start);
    }

    let limit: u64 = if negative {
        0x8000_0000_0000_0000
    } else {
        0x7fff_ffff_ffff_ffff
    };
    let mut magnitude: u64 = 0;
    let mut at: usize = start;
    while at < len
        invariant
            start <= at <= len,
            magnitude == digits_value(digits.subrange(0, at - start)),
            magnitude <= limit,
        decreases len - at,
    {
        assert(is_digit(digits[at - start]));
        let digit: u64 = (data[at] - ZERO) as u64;
        proof {
            let longer = digits.subrange(0, at + 1 - start);
            assert(longer.drop_last() == digits.subrange(0, at - start));
            assert(longer.last() == data@[at as int]);
            assert(digits_value(longer) == magnitude * 10 + digit);
        }
        if magnitude > (limit - digit) / 10 {
            proof {
                lemma_digits_value_prefix(digits, at + 1 - start);
            }
            return Err(
                DecodeError {
                    msg: MSG_OUT_OF_RANGE,
                    offset: 0,
                    error_type: DecodeErrorType::InvalidIntegerValue,
                },
            );
        }
        magnitude = magnitude * 10 + digit;
        at += 1;
    }
    assert(digits.subrange(0, len - start) == digits);

    if !negative {
        Ok(magnitude as i64)
    } else if magnitude == 0x8000_0000_0000_0000 {
        Ok(i64::MIN)
    } else {
        Ok(-(magnitude as i64))
    }
}

} // verus!
