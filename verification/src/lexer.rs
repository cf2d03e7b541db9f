//! Checks and conversions applied to the text of single tokens: byte literals in
//! decimal and hexadecimal, and the bodies of strings, Brainfuck blocks and macro
//! inputs.
use std::sync::Arc;

use snailquote::UnescapeError;
use vstd::prelude::*;
use vstd::string::StrSliceExecFns;
use vstd::string::StringSliceAdditionalSpecFns;
use vstd::string::StringExecFns;

use crate::compiler::grammar::find_char;
use crate::compiler::grammar::lemma_find_char;
use crate::compiler::source::byte_offset;
use crate::compiler::source::lemma_byte_offset_mono;
use crate::compiler::source::utf8_len;
use crate::span::Span;
use crate::span::SpanModel;

verus! {

#[verifier::external_type_specification]
#[verifier::external_body]
pub struct ExUnescapeError(UnescapeError);

/// An error found while turning the text of a token into its value.
#[derive(Debug, Clone, PartialEq)]
pub enum TokenizerError {
    ICEEmptyStringAsInteger(Span),
    NegativeInteger(Span, u8),
    LargeInteger(Span, u8),
    ICEValidIntegerFailed(Span),
    ICEEmptyStringAsHex(Span),
    NegativeHex(Span, u8),
    LargeHex(Span, u8),
    ICEValidHexFailed(Span),
    ICEStringCouldNotBeTrimmed(Span),
    InvalidEscapeSequence(Span, Arc<UnescapeError>),
    NewlineInString(Span, Span),
    NonAsciiString(Span, Span),
    UnknownToken(Span),
}

/// The code of an error, as shown in diagnostics.
pub open spec fn code_of(e: TokenizerError) -> Seq<char> {
    match e {
        TokenizerError::ICEEmptyStringAsInteger(_) => "I000"@,
        TokenizerError::NegativeInteger(_, _) => "E001"@,
        TokenizerError::LargeInteger(_, _) => "E002"@,
        TokenizerError::ICEValidIntegerFailed(_) => "I003"@,
        TokenizerError::ICEEmptyStringAsHex(_) => "I004"@,
        TokenizerError::NegativeHex(_, _) => "E005"@,
        TokenizerError::LargeHex(_, _) => "E006"@,
        TokenizerError::ICEValidHexFailed(_) => "I007"@,
        TokenizerError::ICEStringCouldNotBeTrimmed(_) => "I008"@,
        TokenizerError::InvalidEscapeSequence(_, _) => "E009"@,
        TokenizerError::NewlineInString(_, _) => "E010"@,
        TokenizerError::NonAsciiString(_, _) => "E011"@,
        TokenizerError::UnknownToken(_) => "E012"@,
    }
}

/// The one-line description of an error.
pub open spec fn message_of(e: TokenizerError) -> Seq<char> {
    match e {
        TokenizerError::ICEEmptyStringAsInteger(_) =>
            "Internal Compiler Error: Attempted to parse an empty string as integer"@,
        TokenizerError::NegativeInteger(_, _) =>
            "Invalid byte: Negative numbers are not supported"@,
        TokenizerError::LargeInteger(_, _) =>
            "Invalid byte: Number is too large to store in a byte"@,
        TokenizerError::ICEValidIntegerFailed(_) =>
            "Internal Compiler Error: Failed to parse an integer string that should have succeeded"@,
        TokenizerError::ICEEmptyStringAsHex(_) =>
            "Internal Compiler Error: Attempted to parse an empty string as hex integer"@,
        TokenizerError::NegativeHex(_, _) =>
            "Invalid byte: Negative numbers are not supported"@,
        TokenizerError::LargeHex(_, _) =>
            "Invalid byte: Number is too large to store in a byte"@,
        TokenizerError::ICEValidHexFailed(_) =>
            "Internal Compiler Error: Failed to parse a hex string that should have succeeded"@,
        TokenizerError::ICEStringCouldNotBeTrimmed(_) =>
            "Internal Compiler Error: Failed to trim a stringy type"@,
        TokenizerError::InvalidEscapeSequence(_, _) =>
            "Invalid escape sequence in string."@,
        TokenizerError::NewlineInString(_, _) => "Newlines are not allowed in strings."@,
        TokenizerError::NonAsciiString(_, _) =>
            "Non-ASCII characters are not allowed in strings."@,
        TokenizerError::UnknownToken(_) => "Invalid token."@,
    }
}

impl TokenizerError {
    /// The code of the error, as shown in diagnostics.
    pub fn code(&self) -> (r: &'static str)
        ensures
            r@ == code_of(*self),
    {
        match self {
            TokenizerError::ICEEmptyStringAsInteger(_) => "I000",
            TokenizerError::NegativeInteger(_, _) => "E001",
            TokenizerError::LargeInteger(_, _) => "E002",
            TokenizerError::ICEValidIntegerFailed(_) => "I003",
            TokenizerError::ICEEmptyStringAsHex(_) => "I004",
            TokenizerError::NegativeHex(_, _) => "E005",
            TokenizerError::LargeHex(_, _) => "E006",
            TokenizerError::ICEValidHexFailed(_) => "I007",
            TokenizerError::ICEStringCouldNotBeTrimmed(_) => "I008",
            TokenizerError::InvalidEscapeSequence(_, _) => "E009",
            TokenizerError::NewlineInString(_, _) => "E010",
            TokenizerError::NonAsciiString(_, _) => "E011",
            TokenizerError::UnknownToken(_) => "E012",
        }
    }

    /// The one-line description of the error.
    pub fn message(&self) -> (r: &'static str)
        ensures
            r@ == message_of(*self),
    {
        match self {
            TokenizerError::ICEEmptyStringAsInteger(_) => {
                "Internal Compiler Error: Attempted to parse an empty string as integer"
            },
            TokenizerError::NegativeInteger(_, _) => "Invalid byte: Negative numbers are not supported",
            TokenizerError::LargeInteger(_, _) => "Invalid byte: Number is too large to store in a byte",
            TokenizerError::ICEValidIntegerFailed(_) => {
                "Internal Compiler Error: Failed to parse an integer string that should have succeeded"
            },
            TokenizerError::ICEEmptyStringAsHex(_) => {
                "Internal Compiler Error: Attempted to parse an empty string as hex integer"
            },
            TokenizerError::NegativeHex(_, _) => "Invalid byte: Negative numbers are not supported",
            TokenizerError::LargeHex(_, _) => "Invalid byte: Number is too large to store in a byte",
            TokenizerError::ICEValidHexFailed(_) => {
                "Internal Compiler Error: Failed to parse a hex string that should have succeeded"
            },
            TokenizerError::ICEStringCouldNotBeTrimmed(_) => {
                "Internal Compiler Error: Failed to trim a stringy type"
            },
            TokenizerError::InvalidEscapeSequence(_, _) => "Invalid escape sequence in string.",
            TokenizerError::NewlineInString(_, _) => "Newlines are not allowed in strings.",
            TokenizerError::NonAsciiString(_, _) => "Non-ASCII characters are not allowed in strings.",
            TokenizerError::UnknownToken(_) => "Invalid token.",
        }
    }
}

/// The value of the digit `c` in base 16 (also right for base 10 digits), or -1.
pub open spec fn digit_value(c: char) -> int {
    if '0' <= c <= '9' {
        c as int - '0' as int
    } else if 'a' <= c <= 'f' {
        c as int - 'a' as int + 10
    } else if 'A' <= c <= 'F' {
        c as int - 'A' as int + 10
    } else {
        -1
    }
}

/// `c` is a digit in base `radix` (10 or 16).
pub open spec fn is_digit(c: char, radix: int) -> bool {
    0 <= digit_value(c) < radix
}

/// Every character of `s` is a digit in base `radix`.
pub open spec fn all_digits(s: Seq<char>, radix: int) -> bool {
    forall|k: int| 0 <= k < s.len() ==> is_digit(#[trigger] s[k], radix)
}

/// The number written by the digits `s` in base `radix`.
pub open spec fn digits_value(s: Seq<char>, radix: int) -> int
    decreases s.len(),
{
    if s.len() == 0 {
        0
    } else {
        digits_value(s.drop_last(), radix) * radix + digit_value(s.last())
    }
}

/// Parses the digits with `num`: `BigInt::parse_bytes` in base `radix`, the
/// remainder by `m` computed by `num`, and `to_u32` on it. The contract claims that
/// the result is the number the digits write, modulo `m`; `parse_bytes` and
/// `to_u32` cannot fail on these inputs.
#[verifier::external_body]
fn digits_mod(s: &str, radix: u32, m: u32) -> (r: u32)
    requires
        radix == 10 || radix == 16,
        s@.len() > 0,
        all_digits(s@, radix as int),
        m > 0,
    ensures
        r as int == digits_value(s@, radix as int) % (m as int),
{
    let b = num::BigInt::parse_bytes(s.as_bytes(), radix).unwrap();
    let remainder: num::BigInt = b % m;
    num::ToPrimitive::to_u32(&remainder).unwrap()
}

/// The number the digits write, modulo 256.
fn digits_byte(s: &str, radix: u32) -> (r: u8)
    requires
        radix == 10 || radix == 16,
        s@.len() > 0,
        all_digits(s@, radix as int),
    ensures
        r as int == digits_value(s@, radix as int) % 256,
{
    let r = digits_mod(s, radix, 256);
    r as u8
}

/// The number the digits write, or 256 when it is larger than that.
fn saturated_value(s: &str, radix: u32) -> (r: u32)
    requires
        radix == 10 || radix == 16,
        all_digits(s@, radix as int),
    ensures
        r as int == if digits_value(s@, radix as int) < 256 {
            digits_value(s@, radix as int)
        } else {
            256
        },
{
    let n = s.unicode_len();
    let mut value: u32 = 0;
    let mut k: usize = 0;
    while k < n
        invariant
            n == s@.len(),
            k <= n,
            radix == 10 || radix == 16,
            all_digits(s@, radix as int),
            value <= 256,
            value as int == if digits_value(s@.subrange(0, k as int), radix as int) < 256 {
                digits_value(s@.subrange(0, k as int), radix as int)
            } else {
                256
            },
        decreases n - k,
    {
        let c = s.get_char(k);
        assert(is_digit(s@[k as int], radix as int));
        let d: u32 = if '0' <= c && c <= '9' {
            (c as u32) - ('0' as u32)
        } else if 'a' <= c && c <= 'f' {
            (c as u32) - ('a' as u32) + 10
        } else {
            (c as u32) - ('A' as u32) + 10
        };
        let ghost pre = s@.subrange(0, k as int);
        let ghost post = s@.subrange(0, k + 1);
        proof {
            assert(post.drop_last() =~= pre);
            assert(post.last() == s@[k as int]);
            assert(all_digits(pre, radix as int));
            lemma_digits_value_nonneg(pre, radix as int);
            assert(digits_value(post, radix as int) == digits_value(pre, radix as int) * radix + d);
            if value == 256 {
                assert(digits_value(pre, radix as int) * radix >= digits_value(pre, radix as int)) by (nonlinear_arith)
                    requires
                        digits_value(pre, radix as int) >= 0,
                        radix >= 2,
                ;
            }
        }
        if value < 256 {
            let next = value * radix + d;
            value = if next < 256 {
                next
            } else {
                256
            };
        }
        k = k + 1;
    }
    assert(s@.subrange(0, n as int) =~= s@);
    value
}

proof fn lemma_digits_value_nonneg(s: Seq<char>, radix: int)
    requires
        all_digits(s, radix),
        radix >= 2,
    ensures
        digits_value(s, radix) >= 0,
    decreases s.len(),
{
    if s.len() > 0 {
        lemma_digits_value_nonneg(s.drop_last(), radix);
        assert(is_digit(s[s.len() - 1], radix));
        assert(digits_value(s.drop_last(), radix) * radix >= 0) by (nonlinear_arith)
            requires
                digits_value(s.drop_last(), radix) >= 0,
                radix >= 2,
        ;
    }
}

/// `s` is the text of an integer token: an optional sign, then decimal digits.
pub open spec fn integer_text(s: Seq<char>) -> bool {
    ||| all_digits(s, 10)
    ||| s.len() > 0 && (s[0] == '+' || s[0] == '-') && all_digits(s.drop_first(), 10)
}

/// `s` is the text of a hexadecimal token: an optional sign, `0x` or `0X`, then
/// hexadecimal digits.
pub open spec fn hex_text(s: Seq<char>) -> bool {
    let body = if s.len() > 0 && (s[0] == '+' || s[0] == '-') { s.drop_first() } else { s };
    &&& body.len() >= 2
    &&& body[0] == '0'
    &&& (body[1] == 'x' || body[1] == 'X')
    &&& all_digits(body.subrange(2, body.len() as int), 16)
}

/// The digits of an unsigned number: without its `+`, if it has one.
pub open spec fn unsigned_digits(s: Seq<char>) -> Seq<char> {
    if s.len() > 0 && s[0] == '+' {
        s.drop_first()
    } else {
        s
    }
}

/// The span `s` with its start moved `k` places to the right.
pub open spec fn shifted(s: SpanModel, k: int) -> SpanModel {
    SpanModel { start: (s.start + k) as usize, end: s.end, file_id: s.file_id }
}

/// The byte that, added to `m`, gives 0: the suggestion made for `-m`.
pub open spec fn additive_inverse(m: int) -> int {
    if m == 0 {
        0
    } else {
        256 - m
    }
}

/// The suggested byte for a negative literal `-m` is its additive inverse: added to
/// `m`, it gives 0 modulo 256.
pub proof fn lemma_additive_inverse(m: int)
    requires
        0 <= m <= 255,
    ensures
        0 <= additive_inverse(m) <= 255,
        (m + additive_inverse(m)) % 256 == 0,
{
}

/// Moves the start of `span` one place to the right.
fn shift_one(span: Span) -> (r: Span)
    requires
        span@.start < span@.end,
    ensures
        r@ == shifted(span@, 1),
{
    Span::new(span.start() + 1, span.end(), span.file_id())
}

/// The magnitude of a token without its `-`, read as an unsigned integer token.
fn lex_unsigned_integer(slice: &str, span: Span) -> (r: Result<u8, TokenizerError>)
    requires
        all_digits(slice@, 10) || slice@.len() > 0 && slice@[0] == '+' && all_digits(
            slice@.drop_first(),
            10,
        ),
    ensures
        ({
            let digits = if slice@.len() > 0 && slice@[0] == '+' {
                slice@.drop_first()
            } else {
                slice@
            };
            let v = digits_value(digits, 10);
            if digits.len() == 0 {
                r matches Err(TokenizerError::ICEValidIntegerFailed(sp)) && sp == span
            } else if v <= 255 {
                (r matches Ok(m) && m as int == v)
            } else {
                r matches Err(TokenizerError::LargeInteger(sp, n)) && sp == span && n == v % 256
            }
        }),
{
    let digits = if slice.unicode_len() > 0 && slice.get_char(0) == '+' {
        slice.substring_char(1, slice.unicode_len())
    } else {
        slice
    };
    proof {
        if slice@.len() > 0 && slice@[0] == '+' {
            assert(digits@ =~= slice@.drop_first());
        }
    }
    if digits.unicode_len() == 0 {
        return Err(TokenizerError::ICEValidIntegerFailed(span));
    }
    let v = saturated_value(digits, 10);
    if v <= 255 {
        Ok(v as u8)
    } else {
        Err(TokenizerError::LargeInteger(span, digits_byte(digits, 10)))
    }
}

/// Parses an integer that matches "[+-]?[0-9]*" into a byte. Negative numbers and
/// numbers above 255 are refused with a suggestion: the additive inverse, or the
/// value modulo 256.
pub fn lex_integer(slice: &str, span: Span) -> (r: Result<u8, TokenizerError>)
    requires
        integer_text(slice@),
        span@.start + slice@.len() <= span@.end,
    ensures
        slice@.len() == 0 ==> (r matches Err(TokenizerError::ICEEmptyStringAsInteger(sp))
            && sp == span),
        slice@.len() > 0 && slice@[0] == '-' ==> {
            let digits = slice@.drop_first();
            let v = digits_value(digits, 10);
            if digits.len() == 0 {
                r matches Err(TokenizerError::ICEEmptyStringAsInteger(sp)) && sp@ == shifted(
                    span@,
                    1,
                )
            } else if v <= 255 {
                r matches Err(TokenizerError::NegativeInteger(sp, n)) && sp == span && n
                    == additive_inverse(v)
            } else {
                r matches Err(TokenizerError::LargeInteger(sp, n)) && sp@ == shifted(span@, 2) && n
                    == v % 256
            }
        },
        slice@.len() > 0 && slice@[0] != '-' ==> {
            let digits = if slice@[0] == '+' {
                slice@.drop_first()
            } else {
                slice@
            };
            let v = digits_value(digits, 10);
            if digits.len() == 0 {
                r matches Err(TokenizerError::ICEValidIntegerFailed(sp)) && sp == span
            } else if v <= 255 {
                (r matches Ok(m) && m as int == v)
            } else {
                r matches Err(TokenizerError::LargeInteger(sp, n)) && sp == span && n == v % 256
            }
        },
{
    let n = slice.unicode_len();
    if n == 0 {
        return Err(TokenizerError::ICEEmptyStringAsInteger(span));
    }
    if slice.get_char(0) == '-' {
        let rest = slice.substring_char(1, n);
        assert(rest@ =~= slice@.drop_first());
        let inner = shift_one(span);
        if n == 1 {
            return Err(TokenizerError::ICEEmptyStringAsInteger(inner));
        }
        assert(is_digit(rest@[0], 10));
        let result = lex_unsigned_integer(rest, inner);
        match result {
            Ok(magnitude) => {
                assert(magnitude as int == digits_value(rest@, 10));
                let inverse: u8 = if magnitude == 0 {
                    0
                } else {
                    (256 - magnitude as u16) as u8
                };
                Err(TokenizerError::NegativeInteger(span, inverse))
            },
            Err(TokenizerError::LargeInteger(sp, m)) => {
                Err(TokenizerError::LargeInteger(shift_one(sp), m))
            },
            Err(e) => Err(e),
        }
    } else {
        lex_unsigned_integer(slice, span)
    }
}

/// The magnitude of a hexadecimal token without its `-`.
fn lex_unsigned_hex(slice: &str, span: Span) -> (r: Result<u8, TokenizerError>)
    requires
        hex_text(slice@),
        slice@.len() == 0 || slice@[0] != '-',
    ensures
        ({
            let body = if slice@[0] == '+' {
                slice@.drop_first()
            } else {
                slice@
            };
            let digits = body.subrange(2, body.len() as int);
            let v = digits_value(digits, 16);
            if digits.len() == 0 {
                r matches Err(TokenizerError::ICEValidHexFailed(sp)) && sp == span
            } else if v <= 255 {
                (r matches Ok(m) && m as int == v)
            } else {
                r matches Err(TokenizerError::LargeHex(sp, n)) && sp == span && n == v % 256
            }
        }),
{
    let n = slice.unicode_len();
    let start: usize = if slice.get_char(0) == '+' {
        3
    } else {
        2
    };
    let digits = slice.substring_char(start, n);
    proof {
        let body = if slice@[0] == '+' {
            slice@.drop_first()
        } else {
            slice@
        };
        assert(digits@ =~= body.subrange(2, body.len() as int));
    }
    if digits.unicode_len() == 0 {
        return Err(TokenizerError::ICEValidHexFailed(span));
    }
    let v = saturated_value(digits, 16);
    if v <= 255 {
        Ok(v as u8)
    } else {
        Err(TokenizerError::LargeHex(span, digits_byte(digits, 16)))
    }
}

/// Parses a hex integer that matches "[+-]?0[xX][0-9a-fA-F]*" into a byte.
/// Negative numbers and numbers above 0xff are refused with a suggestion: the
/// additive inverse, or the value modulo 256.
pub fn lex_hex(slice: &str, span: Span) -> (r: Result<u8, TokenizerError>)
    requires
        hex_text(slice@),
        span@.start + slice@.len() <= span@.end,
    ensures
        slice@[0] == '-' ==> {
            let digits = slice@.subrange(3, slice@.len() as int);
            let v = digits_value(digits, 16);
            if digits.len() == 0 {
                r matches Err(TokenizerError::ICEValidHexFailed(sp)) && sp@ == shifted(span@, 1)
            } else if v <= 255 {
                r matches Err(TokenizerError::NegativeHex(sp, n)) && sp == span && n
                    == additive_inverse(v)
            } else {
                r matches Err(TokenizerError::LargeHex(sp, n)) && sp@ == shifted(span@, 1) && n == v
                    % 256
            }
        },
        slice@[0] != '-' ==> {
            let digits = if slice@[0] == '+' {
                slice@.subrange(3, slice@.len() as int)
            } else {
                slice@.subrange(2, slice@.len() as int)
            };
            let v = digits_value(digits, 16);
            if digits.len() == 0 {
                r matches Err(TokenizerError::ICEValidHexFailed(sp)) && sp == span
            } else if v <= 255 {
                (r matches Ok(m) && m as int == v)
            } else {
                r matches Err(TokenizerError::LargeHex(sp, n)) && sp == span && n == v % 256
            }
        },
{
    let n = slice.unicode_len();
    if slice.get_char(0) == '-' {
        let rest = slice.substring_char(1, n);
        assert(rest@ =~= slice@.drop_first());
        assert(rest@.subrange(2, rest@.len() as int) =~= slice@.subrange(3, slice@.len() as int));
        let result = lex_unsigned_hex(rest, shift_one(span));
        match result {
            Ok(magnitude) => {
                assert(magnitude as int == digits_value(slice@.subrange(3, slice@.len() as int), 16));
                let inverse: u8 = if magnitude == 0 {
                    0
                } else {
                    (256 - magnitude as u16) as u8
                };
                Err(TokenizerError::NegativeHex(span, inverse))
            },
            Err(e) => Err(e),
        }
    } else {
        proof {
            if slice@[0] == '+' {
                assert(slice@.drop_first().subrange(2, slice@.len() - 1) =~= slice@.subrange(
                    3,
                    slice@.len() as int,
                ));
            }
        }
        lex_unsigned_hex(slice, span)
    }
}

/// Trims the first and the last character of a String, RawString or MacroInput.
pub fn trim<'a>(slice: &'a str, span: Span) -> (r: Result<&'a str, TokenizerError>)
    ensures
        slice@.len() < 2 ==> (r matches Err(TokenizerError::ICEStringCouldNotBeTrimmed(sp)) && sp
            == span),
        slice@.len() >= 2 ==> (r matches Ok(t) && t@ == slice@.subrange(1, slice@.len() - 1)),
{
    let n = slice.unicode_len();
    if n < 2 {
        return Err(TokenizerError::ICEStringCouldNotBeTrimmed(span));
    }
    Ok(slice.substring_char(1, n - 1))
}

/// The index of the first `b` in `bytes`, if any.
pub open spec fn first_byte_index(bytes: Seq<u8>, b: u8) -> Option<int> {
    if exists|i: int| 0 <= i < bytes.len() && bytes[i] == b {
        Some(choose|i: int| 0 <= i < bytes.len() && bytes[i] == b && forall|j: int| 0 <= j < i ==> bytes[j] != b)
    } else {
        None
    }
}

/// Validates that a string does not contain any newline. The error points at the
/// first newline, by its byte offset.
pub fn no_newlines(slice: &str, span: Span) -> (r: Result<(), TokenizerError>)
    requires
        span@.start + slice.spec_bytes().len() <= span@.end,
    ensures
        (forall|i: int| 0 <= i < slice.spec_bytes().len() ==> slice.spec_bytes()[i] != 10u8) ==> r
            == Ok::<(), TokenizerError>(()),
        forall|i: int|
            0 <= i < slice.spec_bytes().len() && slice.spec_bytes()[i] == 10u8 && (forall|j: int|
                0 <= j < i ==> slice.spec_bytes()[j] != 10u8) ==> (r matches Err(
                TokenizerError::NewlineInString(sp, c),
            ) && sp == span && c@ == (SpanModel {
                start: (span@.start + i) as usize,
                end: (span@.start + i + 1) as usize,
                file_id: span@.file_id,
            })),
{
    let bytes = slice.as_bytes();
    let n = bytes.len();
    let mut i: usize = 0;
    while i < n
        invariant
            n == bytes@.len(),
            bytes@ == slice.spec_bytes(),
            i <= n,
            span@.start + n <= span@.end,
            forall|j: int| 0 <= j < i ==> bytes@[j] != 10u8,
        decreases n - i,
    {
        if bytes[i] == 10u8 {
            let c = Span::new(span.start() + i, span.start() + i + 1, span.file_id());
            return Err(TokenizerError::NewlineInString(span, c));
        }
        i = i + 1;
    }
    Ok(())
}

/// Validates that a string only contains ASCII characters. The error points at the
/// first other character, by its character index, with an empty span.
pub fn ascii_only(slice: &str, span: Span) -> (r: Result<(), TokenizerError>)
    requires
        span@.start + slice@.len() <= span@.end,
    ensures
        (forall|i: int| 0 <= i < slice@.len() ==> (slice@[i] as u32) < 128) ==> r == Ok::<
            (),
            TokenizerError,
        >(()),
        forall|i: int|
            0 <= i < slice@.len() && (slice@[i] as u32) >= 128 && (forall|j: int|
                0 <= j < i ==> (slice@[j] as u32) < 128) ==> (r matches Err(
                TokenizerError::NonAsciiString(sp, c),
            ) && sp == span && c@ == (SpanModel {
                start: (span@.start + i) as usize,
                end: (span@.start + i) as usize,
                file_id: span@.file_id,
            })),
{
    let n = slice.unicode_len();
    let mut i: usize = 0;
    while i < n
        invariant
            n == slice@.len(),
            i <= n,
            span@.start + n <= span@.end,
            forall|j: int| 0 <= j < i ==> (slice@[j] as u32) < 128,
        decreases n - i,
    {
        let c = slice.get_char(i);
        if (c as u32) >= 128 {
            let at = Span::new(span.start() + i, span.start() + i, span.file_id());
            return Err(TokenizerError::NonAsciiString(span, at));
        }
        i = i + 1;
    }
    Ok(())
}

/// The text that `snailquote::unescape` makes of `s`, or `None` where it
/// refuses an escape sequence.
pub uninterp spec fn snailquote_text(s: Seq<char>) -> Option<Seq<char>>;

/// Calls `snailquote::unescape`. The contract claims that the result is a
/// function of the text alone, named `snailquote_text`; what the error says is
/// not stated.
#[verifier::external_body]
fn snailquote_unescape(s: &str) -> (r: Result<String, UnescapeError>)
    ensures
        match r {
            Ok(t) => snailquote_text(s@) == Some(t@),
            Err(_) => snailquote_text(s@) is None,
        },
{
    snailquote::unescape(s)
}

/// What unescaping a string at `span` gives, from the result of the
/// `snailquote` call: the text, or the refusal reported on `span`.
pub fn unescape_outcome(result: Result<String, UnescapeError>, span: Span) -> (r: Result<String, TokenizerError>)
    ensures
        match result {
            Ok(t) => r matches Ok(u) && u@ == t@,
            Err(_) => r matches Err(e) && (e matches TokenizerError::InvalidEscapeSequence(sp, _) && sp == span),
        },
{
    match result {
        Ok(s) => Ok(s),
        Err(e) => Err(TokenizerError::InvalidEscapeSequence(span, Arc::new(e))),
    }
}

/// Unescapes a string using the snailquote crate; an invalid escape sequence is
/// reported on `span`.
pub fn unescape(slice: &str, span: Span) -> (r: Result<String, TokenizerError>)
    ensures
        r is Ok <==> snailquote_text(slice@) is Some,
        r matches Ok(t) ==> snailquote_text(slice@) == Some(t@),
        r matches Err(e) ==> (e matches TokenizerError::InvalidEscapeSequence(sp, _) && sp == span),
{
    unescape_outcome(snailquote_unescape(slice), span)
}

/// The kinds of tokens of Serotonin source text.
#[derive(Debug, PartialEq, Eq, Clone, Copy, Hash, Structural)]
pub enum TokenKind {
    Error,
    Whitespace,
    Comment,
    ImportKW,
    Integer,
    HexInteger,
    String,
    RawString,
    Brainfuck,
    MacroInput,
    Identifier,
    NamedByte,
    NamedQuotation,
    UnnamedByte,
    UnnamedQuotation,
    Substitution,
    Generation,
    Execution,
    LParen,
    RParen,
    LBracket,
    RBracket,
    Semicolon,
    Dot,
}

impl TokenKind {
    /// Atoms are tokens that can be used within the body of a definition or a
    /// quotation.
    pub fn is_atomic(&self) -> (r: bool)
        ensures
            r == (*self is Integer || *self is HexInteger || *self is String || *self is RawString
                || *self is MacroInput || *self is NamedByte || *self is NamedQuotation
                || *self is Identifier || *self is Brainfuck),
    {
        match self {
            TokenKind::Integer | TokenKind::HexInteger | TokenKind::String | TokenKind::RawString
            | TokenKind::MacroInput | TokenKind::NamedByte | TokenKind::NamedQuotation
            | TokenKind::Identifier | TokenKind::Brainfuck => true,
            _ => false,
        }
    }

    /// Trivia are tokens that are to be (mostly) ignored by the parser.
    pub fn is_trivia(&self) -> (r: bool)
        ensures
            r == (*self is Whitespace || *self is Comment),
    {
        match self {
            TokenKind::Whitespace | TokenKind::Comment => true,
            _ => false,
        }
    }
}

/// What some tokens carry: the byte of a number, or the text of a string, a
/// Brainfuck block, a macro input or a name.
#[derive(Debug, Clone, PartialEq, Eq, Hash)]
pub enum TokenData {
    Empty,
    Integer(u8),
    String(String),
}

impl TokenData {
    pub fn is_none(&self) -> (r: bool)
        ensures
            r == (*self is Empty),
    {
        match self {
            TokenData::Empty => true,
            _ => false,
        }
    }

    pub fn is_integer(&self) -> (r: bool)
        ensures
            r == (*self is Integer),
    {
        match self {
            TokenData::Integer(_) => true,
            _ => false,
        }
    }

    pub fn is_string(&self) -> (r: bool)
        ensures
            r == (*self is String),
    {
        match self {
            TokenData::String(_) => true,
            _ => false,
        }
    }

    pub fn unwrap_integer(self) -> (r: u8)
        requires
            self is Integer,
        ensures
            r == self->Integer_0,
    {
        match self {
            TokenData::Integer(i) => i,
            _ => 0,
        }
    }

    pub fn unwrap_string(self) -> (r: String)
        requires
            self is String,
        ensures
            r == self->String_0,
    {
        match self {
            TokenData::String(s) => s,
            _ => String::new(),
        }
    }

    pub fn try_unwrap_integer(&self) -> (r: Option<u8>)
        ensures
            r == (match *self {
                TokenData::Integer(i) => Some(i),
                _ => None,
            }),
    {
        match self {
            TokenData::Integer(i) => Some(*i),
            _ => None,
        }
    }

    pub fn try_unwrap_string(&self) -> (r: Option<&String>)
        ensures
            match *self {
                TokenData::String(s) => r == Some(&s),
                _ => r is None,
            },
    {
        match self {
            TokenData::String(s) => Some(s),
            _ => None,
        }
    }
}

fn integer_text_exec(s: &str) -> (r: bool)
    ensures
        r == integer_text(s@),
{
    let n = s.unicode_len();
    let mut start: usize = 0;
    if n > 0 && (s.get_char(0) == '+' || s.get_char(0) == '-') {
        start = 1;
    }
    let mut k = start;
    while k < n
        invariant
            start <= k <= n,
            n == s@.len(),
            start <= 1,
            start == 1 <==> (n > 0 && (s@[0] == '+' || s@[0] == '-')),
            forall|j: int| start <= j < k ==> is_digit(#[trigger] s@[j], 10),
        decreases n - k,
    {
        let c = s.get_char(k);
        if !('0' <= c && c <= '9') {
            proof {
                if start == 1 {
                    assert(!is_digit(s@.drop_first()[k - 1], 10));
                } else {
                    assert(!is_digit(s@[k as int], 10));
                    if n > 0 && (s@[0] == '+' || s@[0] == '-') {
                    }
                }
            }
            return false;
        }
        k = k + 1;
    }
    proof {
        if start == 1 {
            assert forall|j: int| 0 <= j < s@.drop_first().len() implies is_digit(#[trigger] s@.drop_first()[j], 10) by {
                assert(s@.drop_first()[j] == s@[j + 1]);
            }
        }
    }
    true
}

fn hex_text_exec(s: &str) -> (r: bool)
    ensures
        r == hex_text(s@),
{
    let n = s.unicode_len();
    let mut start: usize = 0;
    if n > 0 && (s.get_char(0) == '+' || s.get_char(0) == '-') {
        start = 1;
    }
    let ghost body = if s@.len() > 0 && (s@[0] == '+' || s@[0] == '-') { s@.drop_first() } else { s@ };
    assert(body =~= s@.subrange(start as int, n as int));
    if n - start < 2 || s.get_char(start) != '0' || (s.get_char(start + 1) != 'x' && s.get_char(start + 1) != 'X') {
        return false;
    }
    let mut k = start + 2;
    while k < n
        invariant
            start + 2 <= k <= n,
            n == s@.len(),
            body == s@.subrange(start as int, n as int),
            body == (if s@.len() > 0 && (s@[0] == '+' || s@[0] == '-') { s@.drop_first() } else { s@ }),
            forall|j: int| start + 2 <= j < k ==> is_digit(#[trigger] s@[j], 16),
        decreases n - k,
    {
        let c = s.get_char(k);
        if !(('0' <= c && c <= '9') || ('a' <= c && c <= 'f') || ('A' <= c && c <= 'F')) {
            proof {
                let d = body.subrange(2, body.len() as int);
                assert(d[k - start - 2] == s@[k as int]);
                assert(!is_digit(d[k - start - 2], 16));
            }
            return false;
        }
        k = k + 1;
    }
    proof {
        let d = body.subrange(2, body.len() as int);
        assert forall|j: int| 0 <= j < d.len() implies is_digit(#[trigger] d[j], 16) by {
            assert(d[j] == s@[start + 2 + j]);
        }
    }
    true
}

/// The value of a [`TokenizerError`]: its spans as values. An invalid escape
/// keeps only its span; the escape error itself is not modelled.
pub enum TokenErrModel {
    ICEEmptyStringAsInteger(SpanModel),
    NegativeInteger(SpanModel, u8),
    LargeInteger(SpanModel, u8),
    ICEValidIntegerFailed(SpanModel),
    ICEEmptyStringAsHex(SpanModel),
    NegativeHex(SpanModel, u8),
    LargeHex(SpanModel, u8),
    ICEValidHexFailed(SpanModel),
    ICEStringCouldNotBeTrimmed(SpanModel),
    InvalidEscapeSequence(SpanModel),
    NewlineInString(SpanModel, SpanModel),
    NonAsciiString(SpanModel, SpanModel),
    UnknownToken(SpanModel),
}

impl View for TokenizerError {
    type V = TokenErrModel;

    open spec fn view(&self) -> TokenErrModel {
        match self {
            TokenizerError::ICEEmptyStringAsInteger(s) => TokenErrModel::ICEEmptyStringAsInteger(s@),
            TokenizerError::NegativeInteger(s, n) => TokenErrModel::NegativeInteger(s@, *n),
            TokenizerError::LargeInteger(s, n) => TokenErrModel::LargeInteger(s@, *n),
            TokenizerError::ICEValidIntegerFailed(s) => TokenErrModel::ICEValidIntegerFailed(s@),
            TokenizerError::ICEEmptyStringAsHex(s) => TokenErrModel::ICEEmptyStringAsHex(s@),
            TokenizerError::NegativeHex(s, n) => TokenErrModel::NegativeHex(s@, *n),
            TokenizerError::LargeHex(s, n) => TokenErrModel::LargeHex(s@, *n),
            TokenizerError::ICEValidHexFailed(s) => TokenErrModel::ICEValidHexFailed(s@),
            TokenizerError::ICEStringCouldNotBeTrimmed(s) => TokenErrModel::ICEStringCouldNotBeTrimmed(s@),
            TokenizerError::InvalidEscapeSequence(s, _) => TokenErrModel::InvalidEscapeSequence(s@),
            TokenizerError::NewlineInString(s, c) => TokenErrModel::NewlineInString(s@, c@),
            TokenizerError::NonAsciiString(s, c) => TokenErrModel::NonAsciiString(s@, c@),
            TokenizerError::UnknownToken(s) => TokenErrModel::UnknownToken(s@),
        }
    }
}

/// The value of [`TokenData`].
pub enum DataModel {
    Empty,
    Integer(u8),
    Text(Seq<char>),
}

impl View for TokenData {
    type V = DataModel;

    open spec fn view(&self) -> DataModel {
        match self {
            TokenData::Empty => DataModel::Empty,
            TokenData::Integer(b) => DataModel::Integer(*b),
            TokenData::String(t) => DataModel::Text(t@),
        }
    }
}

/// A result of [`token_data`] as a value.
pub open spec fn result_view(r: Result<TokenData, TokenizerError>) -> Result<DataModel, TokenErrModel> {
    match r {
        Ok(d) => Ok(d@),
        Err(e) => Err(e@),
    }
}

/// What [`lex_integer`] gives for the text `s` at `sp`.
pub open spec fn integer_result(s: Seq<char>, sp: SpanModel) -> Result<u8, TokenErrModel> {
    if s.len() == 0 {
        Err(TokenErrModel::ICEEmptyStringAsInteger(sp))
    } else if s[0] == '-' {
        let digits = s.drop_first();
        let v = digits_value(digits, 10);
        if digits.len() == 0 {
            Err(TokenErrModel::ICEEmptyStringAsInteger(shifted(sp, 1)))
        } else if v <= 255 {
            Err(TokenErrModel::NegativeInteger(sp, additive_inverse(v) as u8))
        } else {
            Err(TokenErrModel::LargeInteger(shifted(sp, 2), (v % 256) as u8))
        }
    } else {
        let digits = if s[0] == '+' { s.drop_first() } else { s };
        let v = digits_value(digits, 10);
        if digits.len() == 0 {
            Err(TokenErrModel::ICEValidIntegerFailed(sp))
        } else if v <= 255 {
            Ok(v as u8)
        } else {
            Err(TokenErrModel::LargeInteger(sp, (v % 256) as u8))
        }
    }
}

/// What [`lex_hex`] gives for the text `s` at `sp`.
pub open spec fn hex_result(s: Seq<char>, sp: SpanModel) -> Result<u8, TokenErrModel> {
    if s[0] == '-' {
        let digits = s.subrange(3, s.len() as int);
        let v = digits_value(digits, 16);
        if digits.len() == 0 {
            Err(TokenErrModel::ICEValidHexFailed(shifted(sp, 1)))
        } else if v <= 255 {
            Err(TokenErrModel::NegativeHex(sp, additive_inverse(v) as u8))
        } else {
            Err(TokenErrModel::LargeHex(shifted(sp, 1), (v % 256) as u8))
        }
    } else {
        let digits = if s[0] == '+' {
            s.subrange(3, s.len() as int)
        } else {
            s.subrange(2, s.len() as int)
        };
        let v = digits_value(digits, 16);
        if digits.len() == 0 {
            Err(TokenErrModel::ICEValidHexFailed(sp))
        } else if v <= 255 {
            Ok(v as u8)
        } else {
            Err(TokenErrModel::LargeHex(sp, (v % 256) as u8))
        }
    }
}

/// The span `sp` is at least `n` long.
pub open spec fn span_holds(sp: SpanModel, n: int) -> bool {
    sp.start <= sp.end && sp.end - sp.start >= n
}

/// The text `t` at `sp` fits: the span holds its characters, and the byte offset
/// of its end, counted from the span's start, fits in `usize`.
pub open spec fn text_fits_at(sp: SpanModel, t: Seq<char>) -> bool {
    span_holds(sp, t.len() as int) && sp.start + byte_offset(t, t.len() as int) < usize::MAX
}

/// The first position from `k` on that holds a character outside ASCII, or the
/// end of `t`.
pub open spec fn first_wide(t: Seq<char>, k: int) -> int
    decreases t.len() - k,
{
    if k < 0 || k >= t.len() || (t[k] as u32) >= 128 {
        k
    } else {
        first_wide(t, k + 1)
    }
}

/// The newline check on the text `t` of a token at `sp`: the error points at the
/// first newline, by its byte offset.
pub open spec fn newline_result(t: Seq<char>, sp: SpanModel) -> Option<TokenErrModel> {
    let nl = find_char(t, 0, '\n');
    if nl < t.len() {
        let at = sp.start + byte_offset(t, nl);
        Some(
            TokenErrModel::NewlineInString(
                sp,
                SpanModel { start: at as usize, end: (at + 1) as usize, file_id: sp.file_id },
            ),
        )
    } else {
        None
    }
}

/// What a string token `t` at `sp` gives: the first of these that applies, a span
/// too short for the text, a newline, an escape sequence that `snailquote`
/// refuses, a span too short for the unescaped text, a character outside ASCII
/// (pointed at by its index in the unescaped text); else the unescaped text.
pub open spec fn string_result(t: Seq<char>, sp: SpanModel) -> Result<Seq<char>, TokenErrModel> {
    if !text_fits_at(sp, t) {
        Err(TokenErrModel::UnknownToken(sp))
    } else if newline_result(t, sp) is Some {
        Err(newline_result(t, sp)->0)
    } else {
        match snailquote_text(t) {
            None => Err(TokenErrModel::InvalidEscapeSequence(sp)),
            Some(u) => if !span_holds(sp, u.len() as int) {
                Err(TokenErrModel::UnknownToken(sp))
            } else if first_wide(u, 0) < u.len() {
                let at = (sp.start + first_wide(u, 0)) as usize;
                Err(
                    TokenErrModel::NonAsciiString(
                        sp,
                        SpanModel { start: at, end: at, file_id: sp.file_id },
                    ),
                )
            } else {
                Ok(u)
            },
        }
    }
}

/// The text without its first and last character, or the refusal to trim it.
pub open spec fn trim_result(t: Seq<char>, sp: SpanModel) -> Result<Seq<char>, TokenErrModel> {
    if t.len() < 2 {
        Err(TokenErrModel::ICEStringCouldNotBeTrimmed(sp))
    } else {
        Ok(t.subrange(1, t.len() - 1))
    }
}

/// What a Brainfuck token `t` at `sp` gives: the code between the backquotes,
/// unless it cannot be trimmed, the span is too short, or it holds a newline
/// (pointed at from the span's start).
pub open spec fn brainfuck_result(t: Seq<char>, sp: SpanModel) -> Result<Seq<char>, TokenErrModel> {
    match trim_result(t, sp) {
        Err(e) => Err(e),
        Ok(inner) => if !text_fits_at(sp, inner) {
            Err(TokenErrModel::UnknownToken(sp))
        } else if newline_result(inner, sp) is Some {
            Err(newline_result(inner, sp)->0)
        } else {
            Ok(inner)
        },
    }
}

/// A result with its value made a text.
pub open spec fn as_text(r: Result<Seq<char>, TokenErrModel>) -> Result<DataModel, TokenErrModel> {
    match r {
        Ok(t) => Ok(DataModel::Text(t)),
        Err(e) => Err(e),
    }
}

/// A result with its value made a byte.
pub open spec fn as_byte(r: Result<u8, TokenErrModel>) -> Result<DataModel, TokenErrModel> {
    match r {
        Ok(b) => Ok(DataModel::Integer(b)),
        Err(e) => Err(e),
    }
}

/// The data a token of kind `kind` with the text `t` at `sp` carries, or the
/// error it is refused with.
pub open spec fn token_result(kind: TokenKind, t: Seq<char>, sp: SpanModel) -> Result<DataModel, TokenErrModel> {
    match kind {
        TokenKind::Integer => if !integer_text(t) || !span_holds(sp, t.len() as int) {
            Err(TokenErrModel::UnknownToken(sp))
        } else {
            as_byte(integer_result(t, sp))
        },
        TokenKind::HexInteger => if !hex_text(t) || !span_holds(sp, t.len() as int) {
            Err(TokenErrModel::UnknownToken(sp))
        } else {
            as_byte(hex_result(t, sp))
        },
        TokenKind::String | TokenKind::RawString => as_text(string_result(t, sp)),
        TokenKind::Brainfuck => as_text(brainfuck_result(t, sp)),
        TokenKind::MacroInput => as_text(trim_result(t, sp)),
        TokenKind::NamedByte | TokenKind::NamedQuotation | TokenKind::Identifier => Ok(
            DataModel::Text(t),
        ),
        _ => Ok(DataModel::Empty),
    }
}

/// Checks that the text of a token holds no newline; the error points at the
/// first one, by its byte offset from the span's start.
fn newline_free(t: &str, span: Span) -> (r: Result<(), TokenizerError>)
    requires
        span@.start + byte_offset(t@, t@.len() as int) < usize::MAX,
    ensures
        match newline_result(t@, span@) {
            None => r is Ok,
            Some(e) => r matches Err(x) && x@ == e,
        },
{
    let n = t.unicode_len();
    let mut i: usize = 0;
    let mut off: usize = 0;
    while i < n
        invariant
            n == t@.len(),
            i <= n,
            off == byte_offset(t@, i as int),
            span@.start + byte_offset(t@, t@.len() as int) < usize::MAX,
            forall|j: int| 0 <= j < i ==> t@[j] != '\n',
        decreases n - i,
    {
        let c = t.get_char(i);
        proof {
            lemma_byte_offset_mono(t@, i as int + 1, n as int);
            lemma_find_char(t@, 0, '\n');
        }
        if c == '\n' {
            let at = span.start() + off;
            let c = Span::new(at, at + 1, span.file_id());
            return Err(TokenizerError::NewlineInString(span, c));
        }
        let w: usize = if (c as u32) < 0x80 {
            1
        } else if (c as u32) < 0x800 {
            2
        } else if (c as u32) < 0x10000 {
            3
        } else {
            4
        };
        assert(w == utf8_len(c));
        off = off + w;
        i = i + 1;
    }
    proof {
        lemma_find_char(t@, 0, '\n');
    }
    Ok(())
}

proof fn lemma_first_wide(t: Seq<char>, k: int)
    requires
        0 <= k <= t.len(),
    ensures
        k <= first_wide(t, k) <= t.len(),
        first_wide(t, k) < t.len() ==> (t[first_wide(t, k)] as u32) >= 128,
        forall|j: int| k <= j < first_wide(t, k) ==> (t[j] as u32) < 128,
    decreases t.len() - k,
{
    if k < t.len() && (t[k] as u32) < 128 {
        lemma_first_wide(t, k + 1);
    }
}

/// Checks that the unescaped text of a string is ASCII; the error points at the
/// first other character, by its index, with an empty span.
fn ascii_text(t: &str, span: Span) -> (r: Result<(), TokenizerError>)
    requires
        span_holds(span@, t@.len() as int),
    ensures
        first_wide(t@, 0) <= t@.len(),
        first_wide(t@, 0) == t@.len() ==> r is Ok,
        first_wide(t@, 0) < t@.len() ==> (r matches Err(x) && x@ == TokenErrModel::NonAsciiString(
            span@,
            SpanModel {
                start: (span@.start + first_wide(t@, 0)) as usize,
                end: (span@.start + first_wide(t@, 0)) as usize,
                file_id: span@.file_id,
            },
        )),
{
    let n = t.unicode_len();
    let mut i: usize = 0;
    proof {
        lemma_first_wide(t@, 0);
    }
    while i < n
        invariant
            n == t@.len(),
            i <= n,
            span_holds(span@, t@.len() as int),
            forall|j: int| 0 <= j < i ==> (t@[j] as u32) < 128,
            0 <= first_wide(t@, 0) <= t@.len(),
            first_wide(t@, 0) < t@.len() ==> (t@[first_wide(t@, 0)] as u32) >= 128,
            forall|j: int| 0 <= j < first_wide(t@, 0) ==> (t@[j] as u32) < 128,
        decreases n - i,
    {
        let c = t.get_char(i);
        if (c as u32) >= 128 {
            let at = Span::new(span.start() + i, span.start() + i, span.file_id());
            return Err(TokenizerError::NonAsciiString(span, at));
        }
        i = i + 1;
    }
    Ok(())
}

/// The data a token carries, from its kind, its text and its span: numbers are
/// read (and refused when they are negative or above 255), strings are checked
/// for newlines, unescaped and checked to be ASCII, Brainfuck blocks and macro
/// inputs lose their delimiters, and names are kept. A number whose text is not
/// a number, or a span too short for the text, is an unknown token. The result is
/// `token_result` exactly; of an invalid escape, only the span is stated.
pub fn token_data(kind: TokenKind, slice: &str, span: Span) -> (r: Result<TokenData, TokenizerError>)
    ensures
        result_view(r) == token_result(kind, slice@, span@),
{
    match kind {
        TokenKind::Integer => {
            if !integer_text_exec(slice) || span.end() < span.start() || span.end() - span.start() < slice.unicode_len() {
                return Err(TokenizerError::UnknownToken(span));
            }
            match lex_integer(slice, span) {
                Ok(b) => Ok(TokenData::Integer(b)),
                Err(e) => Err(e),
            }
        },
        TokenKind::HexInteger => {
            if !hex_text_exec(slice) || span.end() < span.start() || span.end() - span.start() < slice.unicode_len() {
                return Err(TokenizerError::UnknownToken(span));
            }
            match lex_hex(slice, span) {
                Ok(b) => Ok(TokenData::Integer(b)),
                Err(e) => Err(e),
            }
        },
        TokenKind::String | TokenKind::RawString => {
            if !text_fits_exec(slice, span) {
                return Err(TokenizerError::UnknownToken(span));
            }
            newline_free(slice, span)?;
            let text = unescape(slice, span)?;
            if span.end() - span.start() < text.as_str().unicode_len() {
                return Err(TokenizerError::UnknownToken(span));
            }
            match ascii_text(text.as_str(), span) {
                Ok(()) => Ok(TokenData::String(text)),
                Err(e) => Err(e),
            }
        },
        TokenKind::Brainfuck => {
            let inner = trim(slice, span)?;
            if !text_fits_exec(inner, span) {
                return Err(TokenizerError::UnknownToken(span));
            }
            newline_free(inner, span)?;
            Ok(TokenData::String(String::from_str(inner)))
        },
        TokenKind::MacroInput => {
            let inner = trim(slice, span)?;
            Ok(TokenData::String(String::from_str(inner)))
        },
        TokenKind::NamedByte | TokenKind::NamedQuotation | TokenKind::Identifier => {
            Ok(TokenData::String(String::from_str(slice)))
        },
        _ => Ok(TokenData::Empty),
    }
}

/// Whether the text `t` fits at `span` (see `text_fits_at`).
fn text_fits_exec(t: &str, span: Span) -> (r: bool)
    ensures
        r == text_fits_at(span@, t@),
{
    if span.end() < span.start() || span.end() - span.start() < t.unicode_len() {
        return false;
    }
    let n = t.unicode_len();
    let mut i: usize = 0;
    let mut off: usize = span.start();
    while i < n
        invariant
            n == t@.len(),
            i <= n,
            off == span@.start + byte_offset(t@, i as int),
        decreases n - i,
    {
        let c = t.get_char(i);
        let w: usize = if (c as u32) < 0x80 {
            1
        } else if (c as u32) < 0x800 {
            2
        } else if (c as u32) < 0x10000 {
            3
        } else {
            4
        };
        assert(w == utf8_len(c));
        if off >= usize::MAX - w {
            proof {
                lemma_byte_offset_mono(t@, i as int + 1, n as int);
            }
            return false;
        }
        off = off + w;
        i = i + 1;
    }
    off < usize::MAX
}

} // verus!
