//! Fixed-point decoding of decimal value strings.
//!
//! A value is a decimal numeral with an optional leading `-` and exactly one
//! digit after the decimal point. It is decoded to an integer scaled by ten
//! (`"25.9"` becomes `259`), so comparisons and aggregation stay exact.

use vstd::prelude::*;

use crate::Error;

verus! {

/// ASCII `'0'`.
pub const DIGIT_ZERO: u8 = 48;

/// ASCII `'9'`.
pub const DIGIT_NINE: u8 = 57;

/// ASCII `'.'`.
pub const DOT: u8 = 46;

/// ASCII `'-'`.
pub const MINUS: u8 = 45;

/// A byte is an ASCII decimal digit.
pub open spec fn is_digit(b: u8) -> bool {
    DIGIT_ZERO <= b && b <= DIGIT_NINE
}

/// The numeric value of one digit byte.
pub open spec fn digit_val(b: u8) -> int {
    b - DIGIT_ZERO
}

/// The number written by a sequence of digit bytes, most significant first.
pub open spec fn digits_val(s: Seq<u8>) -> int
    decreases s.len(),
{
    if s.len() == 0 {
        0
    } else {
        digits_val(s.drop_last()) * 10 + digit_val(s.last())
    }
}

pub open spec fn all_digits(s: Seq<u8>) -> bool {
    forall|i: int| 0 <= i < s.len() ==> is_digit(#[trigger] s[i])
}

/// An unsigned numeral of the shape `[0-9]+ '.' [0-9]`.
pub open spec fn is_magnitude(s: Seq<u8>) -> bool {
    &&& s.len() >= 3
    &&& s[s.len() - 2] == DOT
    &&& all_digits(s.subrange(0, s.len() - 2))
    &&& is_digit(s.last())
}

/// The value of a well-formed magnitude, scaled by ten: the integer part
/// shifted one decimal place, plus the single fractional digit.
pub open spec fn magnitude_val(s: Seq<u8>) -> int {
    digits_val(s.subrange(0, s.len() - 2)) * 10 + digit_val(s.last())
}

/// A value string: a magnitude with an optional leading `-`.
pub open spec fn is_value(s: Seq<u8>) -> bool {
    if s.len() > 0 && s[0] == MINUS {
        is_magnitude(s.subrange(1, s.len() as int))
    } else {
        is_magnitude(s)
    }
}

/// The fixed-point number written by a value string.
pub open spec fn decoded(s: Seq<u8>) -> int {
    if s.len() > 0 && s[0] == MINUS {
        -magnitude_val(s.subrange(1, s.len() as int))
    } else {
        magnitude_val(s)
    }
}

pub open spec fn fits_i64(v: int) -> bool {
    i64::MIN <= v <= i64::MAX
}

/// The error with which decoding a value string fails.
pub open spec fn spec_decode_err(s: Seq<u8>) -> Error {
    if !is_value(s) {
        Error::NotANumber
    } else {
        Error::OutOfRange
    }
}

proof fn lemma_digits_val_nonneg(s: Seq<u8>)
    requires
        all_digits(s),
    ensures
        digits_val(s) >= 0,
    decreases s.len(),
{
    if s.len() > 0 {
        assert(all_digits(s.drop_last()));
        lemma_digits_val_nonneg(s.drop_last());
    }
}

/// Decode a value string to its fixed-point integer: ten times the written
/// number, so `"25.9"` yields `259` and `"-0.5"` yields `-5`.
///
/// Succeeds exactly on the strings of the value grammar whose fixed-point
/// number fits in an `i64`; reports `NotANumber` for every string outside the
/// grammar and `OutOfRange` for a well-formed numeral too large in magnitude.
#[verifier::loop_isolation(false)]
pub fn to_decimal_int(val: &[u8]) -> (r: Result<i64, Error>)
    ensures
        match r {
            Ok(v) => is_value(val@) && fits_i64(decoded(val@)) && v as int == decoded(val@),
            Err(e) => {
                &&& !(is_value(val@) && fits_i64(decoded(val@)))
                &&& e == spec_decode_err(val@)
            },
        },
{
    let n = val.len();
    let neg = n > 0 && val[0] == MINUS;
    let start: usize = if neg { 1 } else { 0 };
    let ghost m = val@.subrange(start as int, n as int);
    proof {
        if !neg {
            assert(m =~= val@);
        }
    }
    if n < start + 3 {
        return Err(Error::NotANumber);
    }
    if val[n - 2] != DOT {
        assert(m[m.len() - 2] == val@[n - 2]);
        return Err(Error::NotANumber);
    }
    let last = val[n - 1];
    if !(DIGIT_ZERO <= last && last <= DIGIT_NINE) {
        assert(m.last() == val@[n - 1]);
        return Err(Error::NotANumber);
    }
    // Validate the integer-part digits.
    let mut i: usize = start;
    while i < n - 2
        invariant
            start <= i <= n - 2,
            n == val@.len(),
            start + 3 <= n,
            forall|k: int| start <= k < i ==> is_digit(#[trigger] val@[k]),
        decreases n - 2 - i,
    {
        let b = val[i];
        if !(DIGIT_ZERO <= b && b <= DIGIT_NINE) {
            assert(!all_digits(m.subrange(0, m.len() - 2))) by {
                assert(m.subrange(0, m.len() - 2)[i - start] == val@[i as int]);
            }
            return Err(Error::NotANumber);
        }
        i += 1;
    }
    proof {
        assert(m.subrange(0, m.len() - 2) =~= val@.subrange(start as int, n - 2));
        assert forall|k: int| 0 <= k < m.len() - 2 implies is_digit(#[trigger] m.subrange(
            0,
            m.len() - 2,
        )[k]) by {
            assert(m.subrange(0, m.len() - 2)[k] == val@[start + k]);
        }
        assert(is_magnitude(m));
        assert(is_value(val@));
    }
    let ghost ip = val@.subrange(start as int, n - 2);
    // Accumulate the integer part, tracking whether it has left `u64` range.
    let mut acc: u64 = 0;
    let mut big = false;
    let mut j: usize = start;
    while j < n - 2
        invariant
            start <= j <= n - 2,
            n == val@.len(),
            start + 3 <= n,
            ip == val@.subrange(start as int, n - 2),
            forall|k: int| start <= k < n - 2 ==> is_digit(#[trigger] val@[k]),
            !big ==> acc as int == digits_val(val@.subrange(start as int, j as int)),
            big ==> digits_val(val@.subrange(start as int, j as int)) > u64::MAX,
        decreases n - 2 - j,
    {
        let b = val[j];
        let d = (b - DIGIT_ZERO) as u64;
        let ghost pp = val@.subrange(start as int, j as int);
        let ghost pp2 = val@.subrange(start as int, j + 1);
        proof {
            assert(pp2 =~= pp.push(val@[j as int]));
            assert(pp2.drop_last() =~= pp);
            assert(digits_val(pp2) == digits_val(pp) * 10 + digit_val(val@[j as int]));
            assert(all_digits(pp)) by {
                assert(forall|k: int| 0 <= k < pp.len() ==> pp[k] == val@[start + k]);
            }
            lemma_digits_val_nonneg(pp);
        }
        if big {
            // The integer part can only grow once it is out of range.
        } else {
            let t: u128 = acc as u128 * 10 + d as u128;
            if t > u64::MAX as u128 {
                big = true;
            } else {
                acc = t as u64;
            }
        }
        j += 1;
    }
    proof {
        assert(val@.subrange(start as int, j as int) == ip);
        assert(m.subrange(0, m.len() - 2) =~= ip);
        assert(m.last() == val@[n - 1]);
        assert(magnitude_val(m) == digits_val(ip) * 10 + digit_val(val@[n - 1]));
        assert(all_digits(ip)) by {
            assert(forall|k: int| 0 <= k < ip.len() ==> ip[k] == val@[start + k]);
        }
        lemma_digits_val_nonneg(ip);
    }
    let fd = (last - DIGIT_ZERO) as u64;
    if big {
        return Err(Error::OutOfRange);
    }
    let t2: u128 = acc as u128 * 10 + fd as u128;
    assert(t2 == magnitude_val(m));
    if neg {
        if t2 > 9223372036854775808u128 {
            return Err(Error::OutOfRange);
        }
        if t2 == 9223372036854775808u128 {
            return Ok(i64::MIN);
        }
        let m64 = t2 as u64;
        Ok(-(m64 as i64))
    } else {
        if t2 > i64::MAX as u128 {
            return Err(Error::OutOfRange);
        }
        let m64 = t2 as u64;
        Ok(m64 as i64)
    }
}

} // verus!
