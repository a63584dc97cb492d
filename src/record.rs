//! Parsing of one `key;value` line into a key and a value in tenths.

use vstd::prelude::*;

verus! {

pub const NEWLINE: u8 = 10;

pub const CARRIAGE_RETURN: u8 = 13;

pub const MINUS: u8 = 45;

pub const DOT: u8 = 46;

pub const SEMICOLON: u8 = 59;

/// Why a record could not be read.
#[derive(Clone, Copy, Debug, PartialEq, Eq, Structural)]
pub enum ParseError {
    /// The line holds no `;` between key and value.
    MissingDelimiter,
    /// The value field holds a byte that is neither a digit nor `.`
    /// (past an optional leading `-` and before an optional final `\r`).
    NonNumeric,
    /// The value field holds no digit.
    NoDigits,
    /// The value in tenths does not fit in an `i16`.
    OutOfRange,
    /// The input ends inside a record that no newline closes.
    Unterminated,
}

pub open spec fn is_digit(b: u8) -> bool {
    48 <= b <= 57
}

/// The first index in `[i, hi)` at which `s` holds `b`, or `hi` if there is none.
pub open spec fn index_of_from(s: Seq<u8>, b: u8, i: int, hi: int) -> int
    decreases hi - i,
{
    if i >= hi {
        hi
    } else if s[i] == b {
        i
    } else {
        index_of_from(s, b, i + 1, hi)
    }
}

pub proof fn lemma_index_of_from_bounds(s: Seq<u8>, b: u8, i: int, hi: int)
    requires
        i <= hi,
    ensures
        i <= index_of_from(s, b, i, hi) <= hi,
        index_of_from(s, b, i, hi) < hi ==> s[index_of_from(s, b, i, hi)] == b,
        forall|k: int| i <= k < index_of_from(s, b, i, hi) ==> s[k] != b,
    decreases hi - i,
{
    if i < hi && s[i] != b {
        lemma_index_of_from_bounds(s, b, i + 1, hi);
    }
}

/// The value field without one final carriage return.
pub open spec fn strip_cr(f: Seq<u8>) -> Seq<u8> {
    if f.len() > 0 && f.last() == CARRIAGE_RETURN {
        f.drop_last()
    } else {
        f
    }
}

pub open spec fn is_negative(f: Seq<u8>) -> bool {
    f.len() > 0 && f[0] == MINUS
}

/// The value field without its leading minus sign.
pub open spec fn unsigned_part(f: Seq<u8>) -> Seq<u8> {
    if is_negative(f) {
        f.drop_first()
    } else {
        f
    }
}

/// The number that the digits of `t` spell, read left to right; dots are skipped.
pub open spec fn digits_value(t: Seq<u8>) -> nat
    decreases t.len(),
{
    if t.len() == 0 {
        0
    } else if is_digit(t.last()) {
        digits_value(t.drop_last()) * 10 + (t.last() - 48) as nat
    } else {
        digits_value(t.drop_last())
    }
}

pub open spec fn all_numeric(t: Seq<u8>) -> bool {
    forall|k: int| 0 <= k < t.len() ==> is_digit(#[trigger] t[k]) || t[k] == DOT
}

pub open spec fn has_digit(t: Seq<u8>) -> bool {
    exists|k: int| 0 <= k < t.len() && is_digit(#[trigger] t[k])
}

/// A value field, read as a signed number of tenths.
pub open spec fn parse_value(f: Seq<u8>) -> Result<int, ParseError> {
    let g = strip_cr(f);
    let t = unsigned_part(g);
    if !all_numeric(t) {
        Err(ParseError::NonNumeric)
    } else if !has_digit(t) {
        Err(ParseError::NoDigits)
    } else {
        let v = if is_negative(g) {
            -digits_value(t)
        } else {
            digits_value(t) as int
        };
        if i16::MIN <= v <= i16::MAX {
            Ok(v)
        } else {
            Err(ParseError::OutOfRange)
        }
    }
}

/// A line without its newline, read as a key (the bytes before the first `;`)
/// and a value.
pub open spec fn parse_line(line: Seq<u8>) -> Result<(Seq<u8>, int), ParseError> {
    let d = index_of_from(line, SEMICOLON, 0, line.len() as int);
    if d == line.len() {
        Err(ParseError::MissingDelimiter)
    } else {
        match parse_value(line.subrange(d + 1, line.len() as int)) {
            Ok(v) => Ok((line.subrange(0, d), v)),
            Err(e) => Err(e),
        }
    }
}

proof fn lemma_digits_value_step(t: Seq<u8>, k: int)
    requires
        0 <= k < t.len(),
    ensures
        digits_value(t.subrange(0, k + 1)) == if is_digit(t[k]) {
            digits_value(t.subrange(0, k)) * 10 + (t[k] - 48) as nat
        } else {
            digits_value(t.subrange(0, k))
        },
        digits_value(t.subrange(0, k + 1)) >= digits_value(t.subrange(0, k)),
{
    assert(t.subrange(0, k + 1).drop_last() =~= t.subrange(0, k));
}

/// Reads the line `s[lo..hi)` as a record: the index of its delimiter and its value.
pub fn parse_record(s: &[u8], lo: usize, hi: usize) -> (r: Result<(usize, i16), ParseError>)
    requires
        lo <= hi <= s@.len(),
    ensures
        match parse_line(s@.subrange(lo as int, hi as int)) {
            Ok((key, v)) => r matches Ok((d, x)) && lo <= d < hi && key == s@.subrange(
                lo as int,
                d as int,
            ) && x == v,
            Err(e) => r == Err::<(usize, i16), ParseError>(e),
        },
{
    let ghost line = s@.subrange(lo as int, hi as int);
    let mut d: usize = lo;
    while d < hi && s[d] != SEMICOLON
        invariant
            lo <= d <= hi <= s@.len(),
            line == s@.subrange(lo as int, hi as int),
            index_of_from(line, SEMICOLON, 0, line.len() as int) == index_of_from(
                line,
                SEMICOLON,
                d - lo,
                line.len() as int,
            ),
        decreases hi - d,
    {
        d = d + 1;
    }
    if d == hi {
        return Err(ParseError::MissingDelimiter);
    }
    let ghost f = line.subrange(d - lo + 1, line.len() as int);
    assert(f =~= s@.subrange(d + 1, hi as int));
    // The value field is s[d + 1 .. end), with one final carriage return left out.
    let mut end: usize = hi;
    if end > d + 1 && s[end - 1] == CARRIAGE_RETURN {
        end = end - 1;
    }
    let ghost g = strip_cr(f);
    assert(g =~= s@.subrange(d + 1, end as int));
    let mut i: usize = d + 1;
    let negative = i < end && s[i] == MINUS;
    if negative {
        i = i + 1;
    }
    let ghost t = unsigned_part(g);
    assert(t =~= s@.subrange(i as int, end as int));
    let start = i;
    let mut magnitude: u32 = 0;
    let mut too_big = false;
    let mut seen_digit = false;
    while i < end
        invariant
            d + 1 <= start <= i <= end <= hi <= s@.len(),
            t == s@.subrange(start as int, end as int),
            line == s@.subrange(lo as int, hi as int),
            index_of_from(line, SEMICOLON, 0, line.len() as int) == d - lo,
            f == line.subrange(d - lo + 1, line.len() as int),
            g == strip_cr(f),
            t == unsigned_part(g),
            negative == is_negative(g),
            lo <= d < hi,
            all_numeric(t.subrange(0, i - start)),
            seen_digit == has_digit(t.subrange(0, i - start)),
            too_big == (digits_value(t.subrange(0, i - start)) > 32768),
            !too_big ==> magnitude == digits_value(t.subrange(0, i - start)),
        decreases end - i,
    {
        let b = s[i];
        let ghost k = i - start;
        proof {
            lemma_digits_value_step(t, k);
            assert(t[k] == b);
        }
        if b == DOT {
        } else if 48 <= b && b <= 57 {
            seen_digit = true;
            if !too_big {
                magnitude = magnitude * 10 + (b - 48) as u32;
                if magnitude > 32768 {
                    too_big = true;
                }
            }
        } else {
            assert(!all_numeric(t)) by {
                assert(!(is_digit(t[k]) || t[k] == DOT));
            }
            return Err(ParseError::NonNumeric);
        }
        i = i + 1;
        proof {
            let p = t.subrange(0, k + 1);
            assert(p.drop_last() =~= t.subrange(0, k));
            assert(p.last() == b);
            assert forall|j: int| 0 <= j < p.len() implies is_digit(#[trigger] p[j]) || p[j] == DOT by {
                if j < k {
                    assert(p[j] == t.subrange(0, k)[j]);
                }
            }
            if seen_digit {
                if is_digit(b) {
                    assert(is_digit(p[k]));
                } else {
                    let w = choose|w: int| 0 <= w < k && is_digit(#[trigger] t.subrange(0, k)[w]);
                    assert(is_digit(p[w]));
                }
            } else {
                assert forall|j: int| 0 <= j < p.len() implies !is_digit(#[trigger] p[j]) by {
                    if j < k {
                        assert(p[j] == t.subrange(0, k)[j]);
                    }
                }
            }
        }
    }
    assert(t.subrange(0, i - start) =~= t);
    if !seen_digit {
        return Err(ParseError::NoDigits);
    }
    if too_big {
        return Err(ParseError::OutOfRange);
    }
    if negative {
        if magnitude > 32768 {
            return Err(ParseError::OutOfRange);
        }
        Ok((d, (0 - magnitude as i32) as i16))
    } else {
        if magnitude > 32767 {
            return Err(ParseError::OutOfRange);
        }
        Ok((d, magnitude as i16))
    }
}

} // verus!
