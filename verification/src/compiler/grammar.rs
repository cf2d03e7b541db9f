//! The grammar of Serotonin source text, as functions on its characters.
//!
//! Each function reads the text from a position and gives what the parser must
//! produce there, with the position after it, or `None` where the text is not in
//! the language. The parser in `parse` is proved to compute exactly these.
//!
//! ```text
//! module     = ("IMPORT" word* ";")? definition*
//! definition = word stack? ("==" | "==!" | "==?") term ";"
//! stack      = "(" (lowercase | uppercase | digits | "@" | "?" | "_")* ")"
//! term       = factor*
//! factor     = word | digits | "0x" hexdigits | string | raw string
//!            | "`" brainfuck "`" | "[" term "]" | "{" input "}" word
//! ```
//! Words are runs of characters other than blanks and `; ( ) [ ] { } ` " ' #`;
//! `#` starts a comment that runs to the end of the line.
use vstd::prelude::*;

use crate::compiler::ast::ExprModel;
use crate::compiler::ast::StackArg;
use crate::compiler::ast::DefModel;
use crate::compiler::ast::DefinitionType;
use crate::compiler::ast::def_shape_ok;
use crate::compiler::ast::entry_shape_ok;
use crate::compiler::ast::groups_shape_ok;
use crate::compiler::source::byte_offset;
use crate::lexer::all_digits;
use crate::lexer::digits_value;
use crate::lexer::digit_value;
use crate::lexer::is_digit;
use crate::span::SpanModel;

verus! {

/// `c` separates words.
pub open spec fn is_blank(c: char) -> bool {
    c == ' ' || c == '\t' || c == '\n' || c == '\r'
}

/// `c` can be part of a word.
pub open spec fn is_word_char(c: char) -> bool {
    !is_blank(c) && c != ';' && c != '(' && c != ')' && c != '[' && c != ']' && c != '{' && c
        != '}' && c != '`' && c != '"' && c != '\'' && c != '#'
}

/// The byte the characters `w` write in base `radix`: `Ok` when they are digits
/// of a number up to 255, `Err(true)` when they are digits of a larger number,
/// `Err(false)` when there are none or not all are digits.
pub open spec fn byte_of_digits(w: Seq<char>, radix: int) -> Result<u8, bool> {
    if w.len() == 0 || !all_digits(w, radix) {
        Err(false)
    } else if digits_value(w, radix) > 255 {
        Err(true)
    } else {
        Ok(digits_value(w, radix) as u8)
    }
}

/// The first byte of the UTF-8 encoding of `c`.
pub open spec fn first_utf8_byte(c: char) -> u8 {
    let v = c as u32;
    if v < 0x80 {
        v as u8
    } else if v < 0x800 {
        (0xC0 + v / 64) as u8
    } else if v < 0x10000 {
        (0xE0 + v / 4096) as u8
    } else {
        (0xF0 + v / 262144) as u8
    }
}

/// The number a word writes, if it is a number: `0x` and hexadecimal digits, or
/// decimal digits. `Err(true)` marks a number that does not fit in a byte.
pub open spec fn word_number(w: Seq<char>) -> Option<Result<u8, bool>> {
    if w.len() > 0 && '0' <= w[0] <= '9' {
        if w.len() > 2 && w[0] == '0' && w[1] == 'x' {
            match byte_of_digits(w.subrange(2, w.len() as int), 16) {
                Err(false) => None,
                r => Some(r),
            }
        } else {
            match byte_of_digits(w, 10) {
                Err(false) => None,
                r => Some(r),
            }
        }
    } else {
        None
    }
}

/// A byte written in hexadecimal (`0x` and digits) and the same byte written in
/// decimal are the same number.
pub proof fn lemma_hex_matches_decimal(hex: Seq<char>, dec: Seq<char>)
    requires
        hex.len() > 2,
        hex[0] == '0',
        hex[1] == 'x',
        all_digits(hex.subrange(2, hex.len() as int), 16),
        dec.len() > 0,
        all_digits(dec, 10),
        digits_value(hex.subrange(2, hex.len() as int), 16) == digits_value(dec, 10),
        digits_value(dec, 10) <= 255,
    ensures
        word_number(hex) == word_number(dec),
        word_number(dec) is Some,
{
    assert(is_digit(dec[0], 10));
}

/// The index of the first `.` of `w`, or its length.
pub open spec fn first_dot(w: Seq<char>) -> int {
    if exists|i: int| 0 <= i < w.len() && w[i] == '.' {
        choose|i: int| 0 <= i < w.len() && w[i] == '.' && forall|j: int| 0 <= j < i ==> w[j] != '.'
    } else {
        w.len() as int
    }
}

/// The call a word that is not a number stands for: `module.name`, split at the
/// first `.`, or an unqualified `name`.
pub open spec fn word_call(w: Seq<char>, span: SpanModel) -> ExprModel {
    let d = first_dot(w);
    if d < w.len() {
        ExprModel::Function(w.subrange(0, d), w.subrange(d + 1, w.len() as int), span)
    } else {
        ExprModel::Function(Seq::empty(), w, span)
    }
}


/// The span from character `a` to character `b` of `s`, in bytes.
pub open spec fn char_span(s: Seq<char>, a: int, b: int, file_id: usize) -> SpanModel {
    SpanModel { start: byte_offset(s, a) as usize, end: byte_offset(s, b) as usize, file_id }
}

/// The first position from `k` on that holds `c`, or the end of `s`.
pub open spec fn find_char(s: Seq<char>, k: int, c: char) -> int
    decreases s.len() - k,
{
    if k < 0 || k >= s.len() || s[k] == c {
        k
    } else {
        find_char(s, k + 1, c)
    }
}

pub proof fn lemma_find_char(s: Seq<char>, k: int, c: char)
    requires
        0 <= k <= s.len(),
    ensures
        k <= find_char(s, k, c) <= s.len(),
        find_char(s, k, c) < s.len() ==> s[find_char(s, k, c)] == c,
        forall|j: int| k <= j < find_char(s, k, c) ==> s[j] != c,
    decreases s.len() - k,
{
    if k < s.len() && s[k] != c {
        lemma_find_char(s, k + 1, c);
    }
}

/// The first position from `k` on that is not a blank and does not start a
/// comment; a comment runs from `#` to the end of its line.
pub open spec fn skip_blank_s(s: Seq<char>, k: int) -> int
    decreases s.len() - k,
{
    if k < 0 || k >= s.len() {
        k
    } else if is_blank(s[k]) {
        skip_blank_s(s, k + 1)
    } else if s[k] == '#' {
        proof {
            lemma_find_char(s, k + 1, '\n');
        }
        skip_blank_s(s, find_char(s, k + 1, '\n'))
    } else {
        k
    }
}

pub proof fn lemma_skip_blank(s: Seq<char>, k: int)
    requires
        0 <= k <= s.len(),
    ensures
        k <= skip_blank_s(s, k) <= s.len(),
        skip_blank_s(s, k) < s.len() ==> !is_blank(s[skip_blank_s(s, k)]) && s[skip_blank_s(s, k)] != '#',
        skip_blank_s(s, skip_blank_s(s, k)) == skip_blank_s(s, k),
    decreases s.len() - k,
{
    if k < s.len() {
        if is_blank(s[k]) {
            lemma_skip_blank(s, k + 1);
        } else if s[k] == '#' {
            lemma_find_char(s, k + 1, '\n');
            lemma_skip_blank(s, find_char(s, k + 1, '\n'));
        }
    }
}

/// The end of the word that starts at `k`.
pub open spec fn word_end_s(s: Seq<char>, k: int) -> int
    decreases s.len() - k,
{
    if 0 <= k < s.len() && is_word_char(s[k]) {
        word_end_s(s, k + 1)
    } else {
        k
    }
}

pub proof fn lemma_word_end(s: Seq<char>, k: int)
    requires
        0 <= k <= s.len(),
    ensures
        k <= word_end_s(s, k) <= s.len(),
        forall|j: int| k <= j < word_end_s(s, k) ==> is_word_char(#[trigger] s[j]),
        word_end_s(s, k) < s.len() ==> !is_word_char(s[word_end_s(s, k)]),
    decreases s.len() - k,
{
    if k < s.len() && is_word_char(s[k]) {
        lemma_word_end(s, k + 1);
    }
}

/// Prepends `xs` to the list a parse gave, and marks the result invalid when `inv`.
pub open spec fn prepend<T>(xs: Seq<T>, inv: bool, r: Option<(Seq<T>, int, bool)>) -> Option<
    (Seq<T>, int, bool),
> {
    match r {
        Some((ys, e, i)) => Some((xs + ys, e, inv || i)),
        None => None,
    }
}

pub proof fn lemma_prepend_prepend<T>(
    a: Seq<T>,
    i: bool,
    b: Seq<T>,
    j: bool,
    r: Option<(Seq<T>, int, bool)>,
)
    ensures
        prepend(a, i, prepend(b, j, r)) == prepend(a + b, i || j, r),
{
    if let Some((ys, e, k)) = r {
        assert(a + (b + ys) =~= (a + b) + ys);
    }
}

/// The byte a one-letter escape stands for: `\\ \" \/ \b \f \n \r \t \0`.
pub open spec fn simple_escape(e: char) -> Option<u8> {
    if e == '\\' {
        Some(92)
    } else if e == '"' {
        Some(34)
    } else if e == '/' {
        Some(47)
    } else if e == 'b' {
        Some(8)
    } else if e == 'f' {
        Some(12)
    } else if e == 'n' {
        Some(10)
    } else if e == 'r' {
        Some(13)
    } else if e == 't' {
        Some(9)
    } else if e == '0' {
        Some(0)
    } else {
        None
    }
}

/// The constants of a string's characters from `k` to its closing `quote`, and the
/// position of that quote. In a string (`"`), `\` starts an escape: a one-letter
/// escape, or `\x` and two hexadecimal digits; an unknown escape makes the string
/// invalid. A raw string (`'`) has no escapes. Each other character stands for the
/// first byte of its UTF-8 encoding.
pub open spec fn string_chars(s: Seq<char>, k: int, quote: char, file_id: usize) -> Option<
    (Seq<ExprModel>, int, bool),
>
    decreases s.len() - k,
{
    if k < 0 || k >= s.len() {
        None
    } else if s[k] == quote {
        Some((Seq::empty(), k, false))
    } else if quote == '"' && s[k] == '\\' {
        if k + 1 >= s.len() {
            None
        } else {
            match simple_escape(s[k + 1]) {
                Some(b) => prepend(
                    seq![ExprModel::Constant(b, char_span(s, k, k + 2, file_id))],
                    false,
                    string_chars(s, k + 2, quote, file_id),
                ),
                None => if s[k + 1] == 'x' && s.len() - k > 3 {
                    match byte_of_digits(s.subrange(k + 2, k + 4), 16) {
                        Ok(b) => prepend(
                            seq![ExprModel::Constant(b, char_span(s, k, k + 4, file_id))],
                            false,
                            string_chars(s, k + 4, quote, file_id),
                        ),
                        Err(_) => prepend(Seq::empty(), true, string_chars(s, k + 4, quote, file_id)),
                    }
                } else {
                    prepend(Seq::empty(), true, string_chars(s, k + 2, quote, file_id))
                },
            }
        }
    } else {
        prepend(
            seq![ExprModel::Constant(first_utf8_byte(s[k]), char_span(s, k, k + 1, file_id))],
            false,
            string_chars(s, k + 1, quote, file_id),
        )
    }
}

/// The list starts with the constant `b` on the span `sp`.
pub open spec fn starts_with_byte(cs: Seq<ExprModel>, b: u8, sp: SpanModel) -> bool {
    cs.len() > 0 && cs[0] == ExprModel::Constant(b, sp)
}

/// In a string, a one-letter escape stands for its standard byte: where the
/// characters from `k` on read `\` and a letter, and the rest of the string reads
/// to its closing quote, the first constant is that byte, on the two characters of
/// the escape: `\t` is 9, `\n` 10, `\r` 13, `\b` 8, `\f` 12, `\0` 0, `\\` 92,
/// `\"` 34 and `\/` 47.
pub proof fn lemma_escape_bytes(s: Seq<char>, k: int, file_id: usize)
    requires
        0 <= k,
        k + 1 < s.len(),
        s[k] == '\\',
        string_chars(s, k, '"', file_id) is Some,
    ensures
        ({
            let r = string_chars(s, k, '"', file_id)->0;
            let cs = r.0;
            let e = s[k + 1];
            let sp = char_span(s, k, k + 2, file_id);
            &&& e == 't' ==> starts_with_byte(cs, 9, sp)
            &&& e == 'n' ==> starts_with_byte(cs, 10, sp)
            &&& e == 'r' ==> starts_with_byte(cs, 13, sp)
            &&& e == 'b' ==> starts_with_byte(cs, 8, sp)
            &&& e == 'f' ==> starts_with_byte(cs, 12, sp)
            &&& e == '0' ==> starts_with_byte(cs, 0, sp)
            &&& e == '\\' ==> starts_with_byte(cs, 92, sp)
            &&& e == '"' ==> starts_with_byte(cs, 34, sp)
            &&& e == '/' ==> starts_with_byte(cs, 47, sp)
        }),
{
}

/// In a string, `\x` and two hexadecimal digits stand for the byte they write, on
/// the four characters of the escape; a character that is neither a quote nor a
/// backslash stands for itself when it is ASCII.
pub proof fn lemma_string_bytes(s: Seq<char>, k: int, file_id: usize)
    requires
        0 <= k < s.len(),
        string_chars(s, k, '"', file_id) is Some,
    ensures
        ({
            let r = string_chars(s, k, '"', file_id)->0;
            let cs = r.0;
            &&& (k + 3 < s.len() && s[k] == '\\' && s[k + 1] == 'x' && is_digit(s[k + 2], 16)
                && is_digit(s[k + 3], 16)) ==> starts_with_byte(
                cs,
                (digit_value(s[k + 2]) * 16 + digit_value(s[k + 3])) as u8,
                char_span(s, k, k + 4, file_id),
            )
            &&& (s[k] != '"' && s[k] != '\\' && (s[k] as u32) < 128) ==> starts_with_byte(
                cs,
                (s[k] as u32) as u8,
                char_span(s, k, k + 1, file_id),
            )
        }),
{
    if k + 3 < s.len() && s[k] == '\\' && s[k + 1] == 'x' && is_digit(s[k + 2], 16) && is_digit(
        s[k + 3],
        16,
    ) {
        let w = s.subrange(k + 2, k + 4);
        assert(w.drop_last() =~= seq![s[k + 2]]);
        assert(w.drop_last().drop_last() =~= Seq::<char>::empty());
        assert(w.last() == s[k + 3]);
        assert(digits_value(w.drop_last().drop_last(), 16) == 0);
        assert(w.drop_last().last() == s[k + 2]);
        assert(digits_value(w.drop_last(), 16) == digit_value(s[k + 2]));
        assert(digits_value(w, 16) == digit_value(s[k + 2]) * 16 + digit_value(s[k + 3]));
        assert(all_digits(w, 16));
    }
}

/// The quotation a string or raw string that opens at `pos` stands for, the
/// position after it and whether it is invalid. A string (`"`) starts with a 0
/// byte.
pub open spec fn string_s(s: Seq<char>, pos: int, file_id: usize) -> Option<(ExprModel, int, bool)> {
    let quote = s[pos];
    let lead = if quote == '"' {
        seq![ExprModel::Constant(0, char_span(s, pos, pos + 1, file_id))]
    } else {
        Seq::empty()
    };
    match string_chars(s, pos + 1, quote, file_id) {
        Some((cs, e, inv)) => Some(
            (ExprModel::Quotation(lead + cs, char_span(s, pos, e + 1, file_id)), e + 1, inv),
        ),
        None => None,
    }
}

pub proof fn lemma_string_chars_end(s: Seq<char>, k: int, quote: char, file_id: usize)
    requires
        0 <= k,
    ensures
        string_chars(s, k, quote, file_id) matches Some((cs, e, inv)) ==> k <= e < s.len(),
    decreases s.len() - k,
{
    if 0 <= k < s.len() && s[k] != quote {
        lemma_string_chars_end(s, k + 1, quote, file_id);
        if k + 2 <= s.len() {
            lemma_string_chars_end(s, k + 2, quote, file_id);
        }
        if k + 4 <= s.len() {
            lemma_string_chars_end(s, k + 4, quote, file_id);
        }
    }
}

/// The expression the word from `k` to `e` stands for, and whether it is
/// invalid: a number is a constant (invalid when it does not fit in a byte), any
/// other word a call.
pub open spec fn word_s(s: Seq<char>, k: int, e: int, file_id: usize) -> (ExprModel, bool) {
    let w = s.subrange(k, e);
    let span = char_span(s, k, e, file_id);
    match word_number(w) {
        Some(Ok(b)) => (ExprModel::Constant(b, span), false),
        Some(Err(_)) => (ExprModel::Constant(0, span), true),
        None => (word_call(w, span), false),
    }
}

/// The factor that starts at `k`, the position after it, and whether it is
/// invalid: a quotation `[term]`, Brainfuck code between backquotes, a string,
/// a macro call `{input} name`, or a word.
pub open spec fn factor_s(s: Seq<char>, k: int, file_id: usize) -> Option<(ExprModel, int, bool)>
    decreases s.len() - k, 0int,
{
    if k < 0 || k >= s.len() {
        None
    } else if s[k] == '[' {
        match term_s(s, k + 1, true, file_id) {
            Some((body, e, inv)) => Some((ExprModel::Quotation(body, char_span(s, k, e, file_id)), e, inv)),
            None => None,
        }
    } else if s[k] == '`' {
        let e = find_char(s, k + 1, '`');
        if e >= s.len() {
            None
        } else {
            Some(
                (
                    ExprModel::Brainfuck(s.subrange(k + 1, e), char_span(s, k, e + 1, file_id)),
                    e + 1,
                    false,
                ),
            )
        }
    } else if s[k] == '"' || s[k] == '\'' {
        string_s(s, k, file_id)
    } else if s[k] == '{' {
        let e = find_char(s, k + 1, '}');
        if e >= s.len() {
            None
        } else {
            let w = skip_blank_s(s, e + 1);
            let we = word_end_s(s, w);
            if we == w {
                None
            } else {
                Some(
                    (
                        ExprModel::Macro(
                            s.subrange(k + 1, e),
                            s.subrange(w, we),
                            char_span(s, k, we, file_id),
                        ),
                        we,
                        false,
                    ),
                )
            }
        }
    } else {
        let we = word_end_s(s, k);
        if we == k {
            None
        } else {
            let (x, inv) = word_s(s, k, we, file_id);
            Some((x, we, inv))
        }
    }
}

/// The expressions of the term that starts at `k`, and whether one is invalid.
/// A term ends at `;` when `nested` is false (the position of the `;` is given),
/// and at `]` when it is true (the position after the `]` is given).
pub open spec fn term_s(s: Seq<char>, k: int, nested: bool, file_id: usize) -> Option<
    (Seq<ExprModel>, int, bool),
>
    decreases s.len() - k, 1int,
{
    if k < 0 || k > s.len() {
        None
    } else {
        proof {
            lemma_skip_blank(s, k);
        }
        let j = skip_blank_s(s, k);
        if j >= s.len() || s[j] == ';' || s[j] == ']' {
            if nested {
                if j < s.len() && s[j] == ']' {
                    Some((Seq::empty(), j + 1, false))
                } else {
                    None
                }
            } else {
                if j < s.len() && s[j] == ';' {
                    Some((Seq::empty(), j, false))
                } else {
                    None
                }
            }
        } else {
            match factor_s(s, j, file_id) {
                Some((x, e, inv)) => if j < e <= s.len() {
                    prepend(seq![x], inv, term_s(s, e, nested, file_id))
                } else {
                    None
                },
                None => None,
            }
        }
    }
}

/// A term reads the same from a position as from the next one that is not blank.
pub proof fn lemma_term_skip(s: Seq<char>, k: int, nested: bool, file_id: usize)
    requires
        0 <= k <= s.len(),
    ensures
        term_s(s, k, nested, file_id) == term_s(s, skip_blank_s(s, k), nested, file_id),
{
    lemma_skip_blank(s, k);
    lemma_skip_blank(s, skip_blank_s(s, k));
}

/// The entry a stack-pattern word from `k` to `e` stands for, and whether it is
/// invalid: a lowercase letter names a byte, an uppercase letter a quotation, `@`
/// is any byte, `?` or `_` any quotation, and a number that byte (invalid when it
/// does not fit). Letters get their numbers from `numbered`.
pub open spec fn stack_entry_s(s: Seq<char>, k: int, e: int) -> Option<(StackArg, bool)> {
    let c = s[k];
    if e == k + 1 && 'a' <= c <= 'z' {
        Some((StackArg::Position(c, 0), false))
    } else if e == k + 1 && 'A' <= c <= 'Z' {
        Some((StackArg::Qoutation(c, 0), false))
    } else if e == k + 1 && c == '@' {
        Some((StackArg::IgnoredConstant, false))
    } else if e == k + 1 && (c == '?' || c == '_') {
        Some((StackArg::IgnoredQoutation, false))
    } else {
        match byte_of_digits(s.subrange(k, e), 10) {
            Ok(b) => Some((StackArg::Byte(b), false)),
            Err(true) => Some((StackArg::Byte(0), true)),
            Err(false) => None,
        }
    }
}

/// The entries of a stack pattern from `k` up to its `)`, in the order they are
/// written, with the position of the `)`.
pub open spec fn stack_entries_s(s: Seq<char>, k: int) -> Option<(Seq<StackArg>, int, bool)>
    decreases s.len() - k,
{
    if k < 0 || k > s.len() {
        None
    } else {
        proof {
            lemma_skip_blank(s, k);
        }
        let j = skip_blank_s(s, k);
        if j >= s.len() {
            None
        } else if s[j] == ')' {
            Some((Seq::empty(), j, false))
        } else {
            proof {
                lemma_word_end(s, j);
            }
            let we = word_end_s(s, j);
            if we == j {
                None
            } else {
                match stack_entry_s(s, j, we) {
                    Some((a, inv)) => prepend(seq![a], inv, stack_entries_s(s, we)),
                    None => None,
                }
            }
        }
    }
}

/// Stack entries read the same from a position as from the next one that is not
/// blank.
pub proof fn lemma_stack_entries_skip(s: Seq<char>, k: int)
    requires
        0 <= k <= s.len(),
    ensures
        stack_entries_s(s, k) == stack_entries_s(s, skip_blank_s(s, k)),
{
    lemma_skip_blank(s, k);
    lemma_skip_blank(s, skip_blank_s(s, k));
}

/// The letter of a stack entry, if it has one.
pub open spec fn arg_letter(a: StackArg) -> Option<char> {
    match a {
        StackArg::Position(c, _) => Some(c),
        StackArg::Qoutation(c, _) => Some(c),
        _ => None,
    }
}

/// The number of entries with a letter.
pub open spec fn letters_in(s: Seq<StackArg>) -> nat
    decreases s.len(),
{
    if s.len() == 0 {
        0
    } else {
        letters_in(s.drop_last()) + if arg_letter(s.last()) is Some {
            1nat
        } else {
            0nat
        }
    }
}

/// The number of the letter `c` in the entries `s`: how many entries with a
/// letter come before its first appearance.
pub open spec fn letter_number(s: Seq<StackArg>, c: char) -> Option<nat>
    decreases s.len(),
{
    if s.len() == 0 {
        None
    } else {
        match letter_number(s.drop_last(), c) {
            Some(p) => Some(p),
            None => if arg_letter(s.last()) == Some(c) {
                Some(letters_in(s.drop_last()))
            } else {
                None
            },
        }
    }
}

/// The entry `a`, after the entries `before`, with the number of its letter.
pub open spec fn renumber(a: StackArg, before: Seq<StackArg>) -> StackArg {
    match a {
        StackArg::Position(c, _) => StackArg::Position(
            c,
            (match letter_number(before, c) {
                Some(p) => p,
                None => letters_in(before),
            }) as u8,
        ),
        StackArg::Qoutation(c, _) => StackArg::Qoutation(
            c,
            (match letter_number(before, c) {
                Some(p) => p,
                None => letters_in(before),
            }) as u8,
        ),
        _ => a,
    }
}

/// The entries `s` with each letter numbered by its first appearance.
pub open spec fn numbered(s: Seq<StackArg>) -> Seq<StackArg>
    decreases s.len(),
{
    if s.len() == 0 {
        Seq::empty()
    } else {
        numbered(s.drop_last()).push(renumber(s.last(), s.drop_last()))
    }
}

/// The stack pattern that opens at `pos`: its entries from the top of the stack
/// down (the reverse of the text), numbered; its span; the position after it; and
/// whether it is invalid. A pattern has at most 255 letters.
pub open spec fn stack_s(s: Seq<char>, pos: int, file_id: usize) -> Option<
    (Seq<StackArg>, SpanModel, int, bool),
> {
    match stack_entries_s(s, pos + 1) {
        Some((es, e, inv)) => if letters_in(es.reverse()) <= 255 {
            Some((numbered(es.reverse()), char_span(s, pos, e + 1, file_id), e + 1, inv))
        } else {
            None
        },
        None => None,
    }
}

/// A prefix has no more letters than the whole.
pub proof fn lemma_letters_in_prefix(s: Seq<StackArg>, j: int)
    requires
        0 <= j <= s.len(),
    ensures
        letters_in(s.take(j)) <= letters_in(s),
    decreases s.len(),
{
    if j < s.len() {
        lemma_letters_in_prefix(s.drop_last(), j);
        assert(s.drop_last().take(j) =~= s.take(j));
    } else {
        assert(s.take(j) =~= s);
    }
}

/// A name that a definition cannot have: a single ASCII letter.
pub open spec fn reserved_name(w: Seq<char>) -> bool {
    w.len() == 1 && (('a' <= w[0] <= 'z') || ('A' <= w[0] <= 'Z'))
}

/// The kind of a definition, from what follows its `==` at `k` (`!`, `?` or
/// nothing) and its stack pattern, with the position after the marker. A plain
/// `==` makes a function, or an inline composition when the pattern has entries.
pub open spec fn def_type_s(s: Seq<char>, k: int, stack: Option<(Seq<StackArg>, SpanModel)>) -> (
    DefinitionType,
    int,
) {
    if k < s.len() && s[k] == '!' {
        (DefinitionType::ConstantComposition, k + 1)
    } else if k < s.len() && s[k] == '?' {
        (DefinitionType::Composition, k + 1)
    } else {
        (
            match stack {
                Some((args, _)) => if args.len() == 0 {
                    DefinitionType::Function
                } else {
                    DefinitionType::InlineComposition
                },
                None => DefinitionType::Function,
            },
            k,
        )
    }
}

/// The definition that starts at `pos`, with the id `id`, and the position after
/// its `;`. The definition is left out (`Some((None, _))`) when its name is
/// reserved or a number in it does not fit in a byte.
pub open spec fn definition_s(s: Seq<char>, pos: int, id: usize, file_id: usize) -> Option<
    (Option<DefModel>, int),
> {
    let we = word_end_s(s, pos);
    if we == pos {
        None
    } else {
        let name = s.subrange(pos, we);
        let k = skip_blank_s(s, we);
        let head = if k < s.len() && s[k] == '(' {
            match stack_s(s, k, file_id) {
                Some((args, span, e, inv)) => Some((Some((args, span)), skip_blank_s(s, e), inv)),
                None => None,
            }
        } else {
            Some((None, k, false))
        };
        match head {
            None => None,
            Some((stack, k2, stack_invalid)) => if !(s.len() - k2 >= 2 && s[k2] == '=' && s[k2 + 1] == '=') {
                None
            } else {
                let (typ, k3) = def_type_s(s, k2 + 2, stack);
                match term_s(s, k3, false, file_id) {
                    None => None,
                    Some((body, e, term_invalid)) => Some(
                        (
                            if reserved_name(name) || stack_invalid || term_invalid {
                                None
                            } else {
                                Some(
                                    DefModel {
                                        typ,
                                        name,
                                        stack,
                                        body,
                                        span: char_span(s, pos, e + 1, file_id),
                                        unique_id: id,
                                    },
                                )
                            },
                            e + 1,
                        ),
                    ),
                }
            },
        }
    }
}

/// Prepends `xs` to the list a parse gave.
pub open spec fn prepend_list<T>(xs: Seq<T>, r: Option<(Seq<T>, int)>) -> Option<(Seq<T>, int)> {
    match r {
        Some((ys, e)) => Some((xs + ys, e)),
        None => None,
    }
}

/// The modules an import list names from `k` up to its `;`, with their spans,
/// and the position of the `;`.
pub open spec fn imports_s(s: Seq<char>, k: int, file_id: usize) -> Option<
    (Seq<(Seq<char>, SpanModel)>, int),
>
    decreases s.len() - k,
{
    if k < 0 || k > s.len() {
        None
    } else {
        proof {
            lemma_skip_blank(s, k);
        }
        let j = skip_blank_s(s, k);
        if j >= s.len() {
            None
        } else if s[j] == ';' {
            Some((Seq::empty(), j))
        } else {
            proof {
                lemma_word_end(s, j);
            }
            let e = word_end_s(s, j);
            if e == j {
                None
            } else {
                prepend_list(seq![(s.subrange(j, e), char_span(s, j, e, file_id))], imports_s(s, e, file_id))
            }
        }
    }
}

/// The definitions from `k` to the end of the text, and the id after the last
/// one kept. The first kept definition gets the id `id`, each next one the next
/// id; the ids must fit in `usize`.
pub open spec fn definitions_s(s: Seq<char>, k: int, id: usize, file_id: usize) -> Option<
    (Seq<DefModel>, usize),
>
    decreases s.len() - k,
{
    if k < 0 || k > s.len() {
        None
    } else {
        proof {
            lemma_skip_blank(s, k);
        }
        let j = skip_blank_s(s, k);
        if j >= s.len() {
            Some((Seq::empty(), id))
        } else {
            match definition_s(s, j, id, file_id) {
                None => None,
                Some((d, e)) => if j < e <= s.len() {
                    match d {
                        Some(dm) => if id == usize::MAX {
                            None
                        } else {
                            match definitions_s(s, e, (id + 1) as usize, file_id) {
                                Some((ds, next)) => Some((seq![dm] + ds, next)),
                                None => None,
                            }
                        },
                        None => definitions_s(s, e, id, file_id),
                    }
                } else {
                    None
                },
            }
        }
    }
}

/// The index of the first group named `name`, or the number of groups.
pub open spec fn group_index(gs: Seq<(Seq<char>, Seq<DefModel>)>, name: Seq<char>) -> int
    decreases gs.len(),
{
    if gs.len() == 0 {
        0
    } else if gs[0].0 == name {
        0
    } else {
        1 + group_index(gs.drop_first(), name)
    }
}

pub proof fn lemma_group_index(gs: Seq<(Seq<char>, Seq<DefModel>)>, name: Seq<char>, k: int)
    requires
        0 <= k <= gs.len(),
        forall|j: int| 0 <= j < k ==> (#[trigger] gs[j]).0 != name,
        k == gs.len() || gs[k].0 == name,
    ensures
        group_index(gs, name) == k,
    decreases gs.len(),
{
    if gs.len() > 0 && k > 0 {
        assert forall|j: int| 0 <= j < k - 1 implies (#[trigger] gs.drop_first()[j]).0 != name by {
            assert(gs.drop_first()[j] == gs[j + 1]);
        }
        lemma_group_index(gs.drop_first(), name, k - 1);
    }
}

/// Adds a definition to the group of its name, or to a new group after the
/// others.
pub open spec fn add_to_groups(gs: Seq<(Seq<char>, Seq<DefModel>)>, d: DefModel) -> Seq<
    (Seq<char>, Seq<DefModel>),
> {
    let i = group_index(gs, d.name);
    if i < gs.len() {
        gs.update(i, (gs[i].0, gs[i].1.push(d)))
    } else {
        gs.push((d.name, seq![d]))
    }
}

/// The definitions grouped by name: groups in the order their names first
/// appear, each with its definitions in the order they are written.
pub open spec fn groups_of(ds: Seq<DefModel>) -> Seq<(Seq<char>, Seq<DefModel>)>
    decreases ds.len(),
{
    if ds.len() == 0 {
        Seq::empty()
    } else {
        add_to_groups(groups_of(ds.drop_last()), ds.last())
    }
}

/// A module's text: its imports, its definitions (in the order they are written,
/// without those left out), and the id after the last one. The first definition
/// gets the id `first_id`.
pub open spec fn module_s(s: Seq<char>, file_id: usize, first_id: usize) -> Option<
    (Seq<(Seq<char>, SpanModel)>, Seq<DefModel>, usize),
> {
    let k0 = skip_blank_s(s, 0);
    let we = word_end_s(s, k0);
    let head = if s.subrange(k0, we) == seq!['I', 'M', 'P', 'O', 'R', 'T'] {
        match imports_s(s, we, file_id) {
            Some((ms, e)) => Some((ms, skip_blank_s(s, e + 1))),
            None => None,
        }
    } else {
        Some((Seq::empty(), k0))
    };
    match head {
        None => None,
        Some((ms, k1)) => match definitions_s(s, k1, first_id, file_id) {
            Some((ds, next)) => Some((ms, ds, next)),
            None => None,
        },
    }
}

/// The message for a definition whose name is a single letter.
pub open spec fn reserved_message() -> Seq<char> {
    "Single character names matching 'a'..'z' and 'A'..'Z' are reserved"@
}

/// The message for a definition with a number that does not fit in a byte.
pub open spec fn byte_message() -> Seq<char> {
    "numbers that fit in a byte"@
}

/// Why the definition from `pos` up to `end` is left out, and where: its name is
/// reserved (at the name's first character), or a number in it does not fit in a
/// byte (at the whole definition).
pub open spec fn refusal_s(s: Seq<char>, pos: int, end: int, file_id: usize) -> (Seq<char>, SpanModel) {
    if reserved_name(s.subrange(pos, word_end_s(s, pos))) {
        (reserved_message(), char_span(s, pos, pos + 1, file_id))
    } else {
        (byte_message(), char_span(s, pos, end, file_id))
    }
}

/// The definitions from `k` on that are left out, in order, each with its
/// message and span.
pub open spec fn refused_s(s: Seq<char>, k: int, id: usize, file_id: usize) -> Seq<(Seq<char>, SpanModel)>
    decreases s.len() - k,
{
    if k < 0 || k > s.len() {
        Seq::empty()
    } else {
        proof {
            lemma_skip_blank(s, k);
        }
        let j = skip_blank_s(s, k);
        if j >= s.len() {
            Seq::empty()
        } else {
            match definition_s(s, j, id, file_id) {
                None => Seq::empty(),
                Some((d, e)) => if j < e <= s.len() {
                    match d {
                        Some(_) => if id == usize::MAX {
                            Seq::empty()
                        } else {
                            refused_s(s, e, (id + 1) as usize, file_id)
                        },
                        None => seq![refusal_s(s, j, e, file_id)] + refused_s(s, e, id, file_id),
                    }
                } else {
                    Seq::empty()
                },
            }
        }
    }
}

/// The definitions of a module text that are left out, in order.
pub open spec fn module_refused_s(s: Seq<char>, file_id: usize, first_id: usize) -> Seq<(Seq<char>, SpanModel)> {
    let k0 = skip_blank_s(s, 0);
    let we = word_end_s(s, k0);
    let head = if s.subrange(k0, we) == seq!['I', 'M', 'P', 'O', 'R', 'T'] {
        match imports_s(s, we, file_id) {
            Some((ms, e)) => Some((ms, skip_blank_s(s, e + 1))),
            None => None,
        }
    } else {
        Some((Seq::empty(), k0))
    };
    match head {
        None => Seq::empty(),
        Some((ms, k1)) => refused_s(s, k1, first_id, file_id),
    }
}

/// Prepends `xs` to the definitions a parse gave.
pub open spec fn prepend_defs(xs: Seq<DefModel>, r: Option<(Seq<DefModel>, usize)>) -> Option<
    (Seq<DefModel>, usize),
> {
    match r {
        Some((ys, next)) => Some((xs + ys, next)),
        None => None,
    }
}

/// Import lists and definition lists read the same from a position as from the
/// next one that is not blank.
pub proof fn lemma_lists_skip(s: Seq<char>, k: int, id: usize, file_id: usize)
    requires
        0 <= k <= s.len(),
    ensures
        imports_s(s, k, file_id) == imports_s(s, skip_blank_s(s, k), file_id),
        definitions_s(s, k, id, file_id) == definitions_s(s, skip_blank_s(s, k), id, file_id),
        refused_s(s, k, id, file_id) == refused_s(s, skip_blank_s(s, k), id, file_id),
{
    lemma_skip_blank(s, k);
    lemma_skip_blank(s, skip_blank_s(s, k));
}

/// The number a stack entry carries, 0 for one without a letter.
pub open spec fn arg_number(a: StackArg) -> u8 {
    match a {
        StackArg::Position(_, p) => p,
        StackArg::Qoutation(_, p) => p,
        _ => 0,
    }
}

proof fn lemma_numbered_index(s: Seq<StackArg>, i: int)
    requires
        0 <= i < s.len(),
    ensures
        numbered(s).len() == s.len(),
        numbered(s)[i] == renumber(s[i], s.take(i)),
    decreases s.len(),
{
    lemma_numbered_len(s);
    if i < s.len() - 1 {
        lemma_numbered_index(s.drop_last(), i);
        assert(s.drop_last().take(i) =~= s.take(i));
    } else {
        assert(s.take(i) =~= s.drop_last());
    }
}

proof fn lemma_numbered_len(s: Seq<StackArg>)
    ensures
        numbered(s).len() == s.len(),
    decreases s.len(),
{
    if s.len() > 0 {
        lemma_numbered_len(s.drop_last());
    }
}

/// Where the number of a letter comes from: its first appearance, and the
/// letters before it.
proof fn lemma_letter_number_first(t: Seq<StackArg>, c: char)
    ensures
        letter_number(t, c) matches Some(p) ==> exists|f: int|
            0 <= f < t.len() && arg_letter(#[trigger] t[f]) == Some(c) && p == letters_in(t.take(f)),
        letter_number(t, c) is None ==> forall|f: int| 0 <= f < t.len() ==> arg_letter(#[trigger] t[f]) != Some(c),
    decreases t.len(),
{
    if t.len() > 0 {
        let d = t.drop_last();
        lemma_letter_number_first(d, c);
        assert(t.take(t.len() - 1) =~= d);
        if let Some(p) = letter_number(d, c) {
            let f = choose|f: int| 0 <= f < d.len() && arg_letter(#[trigger] d[f]) == Some(c) && p == letters_in(d.take(f));
            assert(t[f] == d[f]);
            assert(d.take(f) =~= t.take(f));
        } else {
            assert forall|f: int| 0 <= f < t.len() - 1 implies arg_letter(#[trigger] t[f]) != Some(c) by {
                assert(t[f] == d[f]);
            }
        }
    }
}

/// Once a letter has a number, later entries keep it.
proof fn lemma_letter_number_stable(s: Seq<StackArg>, k: int, c: char)
    requires
        0 <= k <= s.len(),
        letter_number(s.take(k), c) is Some,
    ensures
        letter_number(s, c) == letter_number(s.take(k), c),
    decreases s.len() - k,
{
    if k < s.len() {
        assert(s.take(k + 1).drop_last() =~= s.take(k));
        lemma_letter_number_stable(s, k + 1, c);
    } else {
        assert(s.take(k) =~= s);
    }
}

/// The number of the entry `i` with the letter `c` is the number of `c` in the
/// whole pattern.
proof fn lemma_entry_number(s: Seq<StackArg>, i: int, c: char)
    requires
        0 <= i < s.len(),
        arg_letter(s[i]) == Some(c),
        letters_in(s) <= 256,
    ensures
        letter_number(s, c) matches Some(p) && p < letters_in(s) && arg_number(numbered(s)[i]) == p,
{
    lemma_numbered_index(s, i);
    let t = s.take(i + 1);
    assert(t.drop_last() =~= s.take(i));
    assert(t.last() == s[i]);
    lemma_letter_number_stable(s, i + 1, c);
    let p = letter_number(s, c)->0;
    lemma_letter_number_first(s, c);
    let f = choose|f: int| 0 <= f < s.len() && arg_letter(#[trigger] s[f]) == Some(c) && p == letters_in(s.take(f));
    lemma_letters_in_prefix(s, f + 1);
    assert(s.take(f + 1).drop_last() =~= s.take(f));
    assert(s.take(f + 1).last() == s[f]);
}

/// In a numbered stack pattern, entries keep their letters; entries with the same
/// letter have the same number, and entries with different letters different
/// numbers.
pub proof fn lemma_numbered_letters(s: Seq<StackArg>, i: int, j: int)
    requires
        0 <= i < s.len(),
        0 <= j < s.len(),
        letters_in(s) <= 256,
    ensures
        numbered(s).len() == s.len(),
        arg_letter(numbered(s)[i]) == arg_letter(s[i]),
        arg_letter(s[i]) is Some && arg_letter(s[i]) == arg_letter(s[j]) ==> arg_number(numbered(s)[i])
            == arg_number(numbered(s)[j]),
        arg_letter(s[i]) is Some && arg_letter(s[j]) is Some && arg_letter(s[i]) != arg_letter(s[j])
            ==> arg_number(numbered(s)[i]) != arg_number(numbered(s)[j]),
{
    lemma_numbered_index(s, i);
    lemma_numbered_index(s, j);
    if let (Some(c), Some(d)) = (arg_letter(s[i]), arg_letter(s[j])) {
        lemma_entry_number(s, i, c);
        lemma_entry_number(s, j, d);
        if c != d {
            let pc = letter_number(s, c)->0;
            let pd = letter_number(s, d)->0;
            lemma_letter_number_first(s, c);
            lemma_letter_number_first(s, d);
            let fc = choose|f: int| 0 <= f < s.len() && arg_letter(#[trigger] s[f]) == Some(c) && pc == letters_in(s.take(f));
            let fd = choose|f: int| 0 <= f < s.len() && arg_letter(#[trigger] s[f]) == Some(d) && pd == letters_in(s.take(f));
            assert(fc != fd);
            if fc < fd {
                lemma_letters_in_prefix(s.take(fd), fc + 1);
                assert(s.take(fd).take(fc + 1) =~= s.take(fc + 1));
                assert(s.take(fc + 1).drop_last() =~= s.take(fc));
                assert(s.take(fc + 1).last() == s[fc]);
            } else {
                lemma_letters_in_prefix(s.take(fc), fd + 1);
                assert(s.take(fc).take(fd + 1) =~= s.take(fd + 1));
                assert(s.take(fd + 1).drop_last() =~= s.take(fd));
                assert(s.take(fd + 1).last() == s[fd]);
            }
        }
    }
}

/// The entry has no letter, or an ASCII one.
pub open spec fn ascii_letter(a: StackArg) -> bool {
    match arg_letter(a) {
        Some(c) => (c as u32) < 128,
        None => true,
    }
}

/// The entries of a stack pattern have ASCII letters.
proof fn lemma_stack_entries_ascii(s: Seq<char>, k: int)
    ensures
        stack_entries_s(s, k) matches Some((es, e, inv)) ==> forall|i: int|
            0 <= i < es.len() ==> #[trigger] ascii_letter(es[i]),
    decreases s.len() - k,
{
    if 0 <= k <= s.len() {
        lemma_skip_blank(s, k);
        let j = skip_blank_s(s, k);
        if j < s.len() && s[j] != ')' {
            lemma_word_end(s, j);
            let we = word_end_s(s, j);
            if we != j {
                lemma_stack_entries_ascii(s, we);
                if let Some((a, inv)) = stack_entry_s(s, j, we) {
                    if let Some((es, e, i2)) = stack_entries_s(s, k) {
                        let rest = match stack_entries_s(s, we) {
                            Some((r, _, _)) => r,
                            None => Seq::empty(),
                        };
                        assert(es == seq![a] + rest);
                        assert forall|i: int| 0 <= i < es.len() implies #[trigger] ascii_letter(es[i]) by {
                            if i > 0 {
                                assert(es[i] == rest[i - 1]);
                            }
                        }
                    }
                }
            }
        }
    }
}

/// A parsed definition has its shape.
pub proof fn lemma_definition_shape(s: Seq<char>, pos: int, id: usize, file_id: usize)
    ensures
        definition_s(s, pos, id, file_id) matches Some((Some(d), e)) ==> def_shape_ok(d),
{
    if let Some((Some(d), e)) = definition_s(s, pos, id, file_id) {
        if let Some((args, span)) = d.stack {
            let k = skip_blank_s(s, word_end_s(s, pos));
            let es = match stack_entries_s(s, k + 1) {
                Some((x, _, _)) => x,
                None => Seq::empty(),
            };
            lemma_stack_entries_ascii(s, k + 1);
            let r = es.reverse();
            assert(args == numbered(r));
            assert(letters_in(r) <= 255);
            lemma_numbered_len(r);
            assert forall|i: int| 0 <= i < args.len() implies #[trigger] entry_shape_ok(d.typ, args[i]) by {
                lemma_numbered_letters(r, i, i);
                assert(r[i] == es[es.len() - 1 - i]);
                assert(ascii_letter(es[es.len() - 1 - i]));
                assert(arg_letter(args[i]) == arg_letter(r[i]));
            }
        }
    }
}

/// The definitions of a parsed module have their shapes.
proof fn lemma_definitions_shape(s: Seq<char>, k: int, id: usize, file_id: usize)
    ensures
        definitions_s(s, k, id, file_id) matches Some((ds, next)) ==> forall|i: int|
            0 <= i < ds.len() ==> #[trigger] def_shape_ok(ds[i]),
    decreases s.len() - k,
{
    if 0 <= k <= s.len() {
        lemma_skip_blank(s, k);
        let j = skip_blank_s(s, k);
        if j < s.len() {
            lemma_definition_shape(s, j, id, file_id);
            if let Some((d, e)) = definition_s(s, j, id, file_id) {
                if j < e <= s.len() {
                    match d {
                        Some(dm) => if id < usize::MAX {
                            lemma_definitions_shape(s, e, (id + 1) as usize, file_id);
                            if let Some((ds, next)) = definitions_s(s, k, id, file_id) {
                                let rest = match definitions_s(s, e, (id + 1) as usize, file_id) {
                                    Some((r, _)) => r,
                                    None => Seq::empty(),
                                };
                                assert(ds == seq![dm] + rest);
                                assert forall|i: int| 0 <= i < ds.len() implies #[trigger] def_shape_ok(ds[i]) by {
                                    if i > 0 {
                                        assert(ds[i] == rest[i - 1]);
                                    }
                                }
                            }
                        },
                        None => {
                            lemma_definitions_shape(s, e, id, file_id);
                        },
                    }
                }
            }
        }
    }
}

proof fn lemma_group_index_range(gs: Seq<(Seq<char>, Seq<DefModel>)>, name: Seq<char>)
    ensures
        0 <= group_index(gs, name) <= gs.len(),
    decreases gs.len(),
{
    if gs.len() > 0 && gs[0].0 != name {
        lemma_group_index_range(gs.drop_first(), name);
    }
}

/// Grouping keeps the definitions' shapes.
proof fn lemma_groups_of_shape(ds: Seq<DefModel>)
    requires
        forall|i: int| 0 <= i < ds.len() ==> #[trigger] def_shape_ok(ds[i]),
    ensures
        groups_shape_ok(groups_of(ds)),
    decreases ds.len(),
{
    if ds.len() > 0 {
        let before = groups_of(ds.drop_last());
        let d = ds.last();
        assert(def_shape_ok(ds[ds.len() - 1]));
        assert forall|i: int| 0 <= i < ds.drop_last().len() implies #[trigger] def_shape_ok(ds.drop_last()[i]) by {
            assert(ds.drop_last()[i] == ds[i]);
        }
        lemma_groups_of_shape(ds.drop_last());
        let gs = groups_of(ds);
        let i = group_index(before, d.name);
        lemma_group_index_range(before, d.name);
        assert(gs == add_to_groups(before, d));
        assert forall|g: int, x: int| 0 <= g < gs.len() && 0 <= x < gs[g].1.len() implies #[trigger] def_shape_ok(
            gs[g].1[x],
        ) by {
            if i < before.len() && g == i {
                if x < before[g].1.len() {
                    assert(gs[g].1[x] == before[g].1[x]);
                }
            } else if g < before.len() {
                assert(gs[g] == before[g]);
            }
        }
    }
}

/// The definitions of a parsed module, grouped, have their shapes.
pub proof fn lemma_module_shape(s: Seq<char>, file_id: usize, first_id: usize)
    ensures
        module_s(s, file_id, first_id) matches Some((ms, ds, next)) ==> groups_shape_ok(groups_of(ds)),
{
    if let Some((ms, ds, next)) = module_s(s, file_id, first_id) {
        let k0 = skip_blank_s(s, 0);
        let we = word_end_s(s, k0);
        if s.subrange(k0, we) == seq!['I', 'M', 'P', 'O', 'R', 'T'] {
            let e = match imports_s(s, we, file_id) {
                Some((_, x)) => x,
                None => 0,
            };
            lemma_definitions_shape(s, skip_blank_s(s, e + 1), first_id, file_id);
        } else {
            lemma_definitions_shape(s, k0, first_id, file_id);
        }
        lemma_groups_of_shape(ds);
    }
}

} // verus!
