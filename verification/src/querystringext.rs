//! Typed accessors over a decoded query string: looking a value up as UTF-8
//! text and parsing it into a target type.

use crate::querystring::QueryString;
use vstd::prelude::*;
use vstd::string::StrSliceExecFns;
use vstd::string::StringSliceAdditionalSpecFns;
use vstd::utf8::decode_utf8;
use vstd::utf8::encode_utf8_decode_utf8;
use vstd::utf8::valid_utf8;

verus! {

/// An error raised while reading a typed value out of a query string.
#[derive(Debug, Clone, Copy, PartialEq, Eq)]
pub enum AccessError<E> {
    /// The stored bytes of the value are not valid UTF-8 text.
    InvalidUtf8,
    /// The text of the value could not be parsed; wraps the parser's error.
    ParseFailure(E),
}

/// A type constructible from query-string text, whose construction can fail
/// with the type's own reportable error.
pub trait FromQueryText: Sized {
    /// The parser's error type.
    type Err;

    /// What parsing yields: `Some` exactly on the texts the type accepts.
    spec fn text_parse_spec(s: Seq<char>) -> Option<Self>;

    /// Parses `s`, succeeding exactly when `text_parse_spec` accepts it.
    fn parse_text(s: &str) -> (r: Result<Self, Self::Err>)
        ensures
            r matches Ok(v) ==> Self::text_parse_spec(s@) == Some(v),
            r is Err ==> Self::text_parse_spec(s@) is None,
    ;
}

/// An error raised while parsing an integer out of query-string text.
#[derive(Debug, Clone, Copy, PartialEq, Eq, Structural)]
pub enum IntParseError {
    /// The text holds no digits.
    Empty,
    /// A character of the text is not a decimal digit.
    InvalidDigit,
    /// The spelled value does not fit into the target type.
    OutOfRange,
}

/// Whether `c` is an ASCII decimal digit.
pub open spec fn is_decimal_digit(c: char) -> bool {
    48 <= c as u32 && c as u32 <= 57
}

/// The numeric value of the decimal digit `c`.
pub open spec fn decimal_digit_value(c: char) -> int {
    c as u32 - 48
}

/// Every character of `s` is a decimal digit.
pub open spec fn all_decimal_digits(s: Seq<char>) -> bool {
    forall|i: int| 0 <= i < s.len() ==> is_decimal_digit(s[i])
}

/// The non-negative number the digit sequence `s` spells in base ten.
pub open spec fn decimal_value(s: Seq<char>) -> int
    decreases s.len(),
{
    if s.len() == 0 {
        0
    } else {
        decimal_value(s.drop_last()) * 10 + decimal_digit_value(s.last())
    }
}

/// The digits of an optionally signed integer text: everything after a
/// leading `+` or `-`, or the whole text if it has neither.
pub open spec fn int_digits(s: Seq<char>) -> Seq<char> {
    if s.len() > 0 && (s[0] == '+' || s[0] == '-') {
        s.skip(1)
    } else {
        s
    }
}

/// Whether an integer text carries a leading minus sign.
pub open spec fn int_is_negative(s: Seq<char>) -> bool {
    s.len() > 0 && s[0] == '-'
}

/// The signed mathematical value an integer text spells.
pub open spec fn int_text_value(s: Seq<char>) -> int {
    if int_is_negative(s) {
        -decimal_value(int_digits(s))
    } else {
        decimal_value(int_digits(s))
    }
}

/// What parsing an `i32` out of `s` yields: an optional sign followed by at
/// least one decimal digit, spelling a value within the `i32` range.
pub open spec fn parsed_i32(s: Seq<char>) -> Option<i32> {
    let d = int_digits(s);
    if d.len() == 0 || !all_decimal_digits(d) {
        None
    } else if i32::MIN <= int_text_value(s) && int_text_value(s) <= i32::MAX {
        Some(int_text_value(s) as i32)
    } else {
        None
    }
}

/// The error parsing an `i32` out of `s` raises when it yields nothing.
pub open spec fn i32_parse_error(s: Seq<char>) -> IntParseError {
    let d = int_digits(s);
    if d.len() == 0 {
        IntParseError::Empty
    } else if !all_decimal_digits(d) {
        IntParseError::InvalidDigit
    } else {
        IntParseError::OutOfRange
    }
}

/// A digit sequence spells a non-negative number.
proof fn lemma_decimal_value_nonneg(s: Seq<char>)
    requires
        all_decimal_digits(s),
    ensures
        decimal_value(s) >= 0,
    decreases s.len(),
{
    if s.len() > 0 {
        assert(all_decimal_digits(s.drop_last()));
        lemma_decimal_value_nonneg(s.drop_last());
    }
}

impl FromQueryText for i32 {
    type Err = IntParseError;

    open spec fn text_parse_spec(s: Seq<char>) -> Option<i32> {
        parsed_i32(s)
    }

    /// Parses an optionally signed decimal integer, rejecting empty digit
    /// sequences, non-digit characters and values outside the `i32` range.
    fn parse_text(s: &str) -> (r: Result<i32, IntParseError>)
        ensures
            r matches Err(e) ==> e == i32_parse_error(s@),
    {
        let n = s.unicode_len();
        if n == 0 {
            return Err(IntParseError::Empty);
        }
        let c0 = s.get_char(0);
        let neg = c0 == '-';
        let signed = neg || c0 == '+';
        let start: usize = if signed {
            1
        } else {
            0
        };
        let ghost d = int_digits(s@);
        proof {
            assert(d =~= s@.subrange(start as int, n as int));
        }
        if start == n {
            return Err(IntParseError::Empty);
        }

        let mut acc: u64 = 0;
        let mut overflow = false;
        let mut i = start;
        while i < n
            invariant
                n == s@.len(),
                start <= i <= n,
                d == int_digits(s@),
                d == s@.subrange(start as int, n as int),
                neg == int_is_negative(s@),
                forall|j: int| start <= j < i ==> is_decimal_digit(s@[j]),
                !overflow ==> acc == decimal_value(s@.subrange(start as int, i as int)) && acc
                    <= 2147483648,
                overflow ==> decimal_value(s@.subrange(start as int, i as int)) > 2147483648,
            decreases n - i,
        {
            let c = s.get_char(i);
            let cv = c as u32;
            if cv < 48 || cv > 57 {
                proof {
                    assert(d[i - start] == s@[i as int]);
                    assert(!all_decimal_digits(d));
                }
                return Err(IntParseError::InvalidDigit);
            }
            let dv = (cv - 48) as u64;
            let ghost prefix = s@.subrange(start as int, i as int);
            let ghost prefix2 = s@.subrange(start as int, i + 1);
            proof {
                assert(prefix2.drop_last() =~= prefix);
                assert(prefix2.last() == s@[i as int]);
                assert(decimal_value(prefix2) == decimal_value(prefix) * 10 + (cv - 48));
            }
            if overflow {
                proof {
                    assert(decimal_value(prefix2) > 2147483648);
                }
            } else {
                let next = acc * 10 + dv;
                if next > 2147483648 {
                    overflow = true;
                } else {
                    acc = next;
                }
            }
            i += 1;
        }
        proof {
            assert(d =~= s@.subrange(start as int, n as int));
            assert(all_decimal_digits(d));
            assert(int_is_negative(s@) == neg);
        }

        if overflow {
            proof {
                lemma_decimal_value_nonneg(d);
            }
            return Err(IntParseError::OutOfRange);
        }
        if neg {
            if acc == 2147483648 {
                return Ok(i32::MIN);
            }
            let v = acc as i32;
            return Ok(- v);
        }
        if acc > 2147483647 {
            return Err(IntParseError::OutOfRange);
        }
        Ok(acc as i32)
    }
}

/// Relies on `core::str::from_utf8`: it returns `Ok` exactly when the bytes
/// are valid UTF-8, viewing them as the text they encode.
#[verifier::external_body]
fn bytes_as_str(v: &[u8]) -> (r: Option<&str>)
    ensures
        r matches Some(s) ==> valid_utf8(v@) && s.spec_bytes() == v@,
        r is None ==> !valid_utf8(v@),
{
    core::str::from_utf8(v).ok()
}

impl QueryString {
    /// Looks `key` up and interprets the stored value bytes as UTF-8 text.
    ///
    /// A missing key is no error: it yields `Ok(None)`.
    pub fn get_str<'a, E>(&'a self, key: &[u8]) -> (r: Result<Option<&'a str>, AccessError<E>>)
        requires
            self.wf(),
        ensures
            match r {
                Ok(None) => !self.field_map().dom().contains(key@),
                Ok(Some(s)) => self.field_map().dom().contains(key@) && valid_utf8(
                    self.field_map()[key@],
                ) && s@ == decode_utf8(self.field_map()[key@]),
                Err(AccessError::InvalidUtf8) => self.field_map().dom().contains(key@)
                    && !valid_utf8(self.field_map()[key@]),
                Err(AccessError::ParseFailure(_)) => false,
            },
    {
        let value = match self.get(key) {
            Some(v) => v,
            None => {
                return Ok(None);
            },
        };
        match bytes_as_str(value.as_slice()) {
            Some(s) => {
                proof {
                    encode_utf8_decode_utf8(s@);
                }
                Ok(Some(s))
            },
            None => Err(AccessError::InvalidUtf8),
        }
    }

    /// Looks `key` up and parses its text into the requested type.
    ///
    /// A missing key is no error: it yields `Ok(None)`.  A present value that
    /// is not UTF-8, or whose text the type rejects, is an error — absence is
    /// distinct from a present-but-unparsable value.
    pub fn get_as<T: FromQueryText>(&self, key: &[u8]) -> (r: Result<
        Option<T>,
        AccessError<T::Err>,
    >)
        requires
            self.wf(),
        ensures
            match r {
                Ok(None) => !self.field_map().dom().contains(key@),
                Ok(Some(v)) => self.field_map().dom().contains(key@) && valid_utf8(
                    self.field_map()[key@],
                ) && T::text_parse_spec(decode_utf8(self.field_map()[key@])) == Some(v),
                Err(AccessError::InvalidUtf8) => self.field_map().dom().contains(key@)
                    && !valid_utf8(self.field_map()[key@]),
                Err(AccessError::ParseFailure(_)) => self.field_map().dom().contains(key@)
                    && valid_utf8(self.field_map()[key@]) && T::text_parse_spec(
                    decode_utf8(self.field_map()[key@]),
                ) is None,
            },
    {
        let text = match self.get_str::<T::Err>(key) {
            Ok(Some(s)) => s,
            Ok(None) => {
                return Ok(None);
            },
            Err(e) => {
                return Err(e);
            },
        };
        match T::parse_text(text) {
            Ok(v) => Ok(Some(v)),
            Err(e) => Err(AccessError::ParseFailure(e)),
        }
    }
}

} // verus!

