//! The token grammar of Serotonin source text, and the lexer built on it.
//!
//! At each position the token is the longest match of the patterns below; when
//! two match the same length, the one listed first wins. Where nothing matches,
//! one character is an error token.
//!
//! | token | pattern |
//! |-------|---------|
//! | `IMPORT`, `==?`, `==!`, `==`, `@`, `?`, `(`, `)`, `[`, `]`, `;`, `.` | themselves |
//! | string | `"[^"]*"` |
//! | raw string | `'[^']*'` |
//! | Brainfuck | `` `[^`]*` `` |
//! | macro input | `\{[^}]*\}` |
//! | comment | `#[^\r\n]*` |
//! | whitespace | `[ \t\n\f]+` |
//! | hexadecimal integer | `[+-]?0[xX][0-9a-fA-F]+` |
//! | integer | `[+-]?[0-9]+` |
//! | named byte, named quotation | `[a-z]`, `[A-Z]` |
//! | identifier | a character other than a blank, `;#@?()[]{}` or a digit, then any number of characters other than a blank or `;#@?()[]{}` |
use vstd::prelude::*;

use crate::compiler::grammar::char_span;
use crate::compiler::source::lemma_byte_offset_mono;
use crate::compiler::source::text_fits;
use vstd::std_specs::iter::IteratorSpec;
use crate::compiler::source::Source;
use crate::lexer::token_data;
use crate::lexer::token_result;
use crate::lexer::DataModel;
use crate::lexer::TokenData;
use crate::lexer::TokenErrModel;
use crate::lexer::TokenKind;
use crate::lexer::TokenizerError;
use crate::span::Span;
use crate::span::SpanModel;

verus! {

/// A set of characters that a pattern repeats.
pub enum CharClass {
    /// Space, tab, newline and form feed.
    Blank,
    /// Anything but a carriage return or a newline.
    CommentChar,
    Digit,
    HexDigit,
    /// Anything but the given character.
    Not(char),
    /// What an identifier goes on with.
    IdentRest,
}

pub open spec fn is_blank_char(c: char) -> bool {
    c == ' ' || c == '\t' || c == '\n' || c == '\x0C'
}

/// A character that ends an identifier.
pub open spec fn ends_ident(c: char) -> bool {
    is_blank_char(c) || c == ';' || c == '#' || c == '@' || c == '?' || c == '(' || c == ')'
        || c == '[' || c == ']' || c == '{' || c == '}'
}

pub open spec fn is_decimal(c: char) -> bool {
    '0' <= c && c <= '9'
}

pub open spec fn in_class(c: char, cls: CharClass) -> bool {
    match cls {
        CharClass::Blank => is_blank_char(c),
        CharClass::CommentChar => c != '\r' && c != '\n',
        CharClass::Digit => is_decimal(c),
        CharClass::HexDigit => is_decimal(c) || ('a' <= c && c <= 'f') || ('A' <= c && c <= 'F'),
        CharClass::Not(x) => c != x,
        CharClass::IdentRest => !ends_ident(c),
    }
}

/// How many characters of the class follow from `k` on.
pub open spec fn run(s: Seq<char>, k: int, cls: CharClass) -> int
    decreases s.len() - k,
{
    if 0 <= k < s.len() && in_class(s[k], cls) {
        1 + run(s, k + 1, cls)
    } else {
        0
    }
}

/// The length of `lit` if the text at `k` starts with it, else 0.
pub open spec fn literal_len(s: Seq<char>, k: int, lit: Seq<char>) -> int {
    if 0 <= k && k + lit.len() <= s.len() && s.subrange(k, k + lit.len()) == lit {
        lit.len() as int
    } else {
        0
    }
}

/// The length of a text from `k` between `open` and `close`, with no `close`
/// inside, else 0.
pub open spec fn delimited_len(s: Seq<char>, k: int, open: char, close: char) -> int {
    if 0 <= k < s.len() && s[k] == open {
        let r = run(s, k + 1, CharClass::Not(close));
        if k + 1 + r < s.len() {
            r + 2
        } else {
            0
        }
    } else {
        0
    }
}

/// 1 when the text at `k` starts with a sign, else 0.
pub open spec fn sign_len(s: Seq<char>, k: int) -> int {
    if 0 <= k < s.len() && (s[k] == '+' || s[k] == '-') {
        1
    } else {
        0
    }
}

pub open spec fn integer_len(s: Seq<char>, k: int) -> int {
    let d = run(s, k + sign_len(s, k), CharClass::Digit);
    if d > 0 {
        sign_len(s, k) + d
    } else {
        0
    }
}

pub open spec fn hex_len(s: Seq<char>, k: int) -> int {
    let j = k + sign_len(s, k);
    if 0 <= j && j + 1 < s.len() && s[j] == '0' && (s[j + 1] == 'x' || s[j + 1] == 'X') {
        let h = run(s, j + 2, CharClass::HexDigit);
        if h > 0 {
            sign_len(s, k) + 2 + h
        } else {
            0
        }
    } else {
        0
    }
}

pub open spec fn comment_len(s: Seq<char>, k: int) -> int {
    if 0 <= k < s.len() && s[k] == '#' {
        1 + run(s, k + 1, CharClass::CommentChar)
    } else {
        0
    }
}

pub open spec fn ident_len(s: Seq<char>, k: int) -> int {
    if 0 <= k < s.len() && !ends_ident(s[k]) && !is_decimal(s[k]) {
        1 + run(s, k + 1, CharClass::IdentRest)
    } else {
        0
    }
}

/// 1 when the character at `k` is in `lo..=hi`, else 0.
pub open spec fn letter_len(s: Seq<char>, k: int, lo: char, hi: char) -> int {
    if 0 <= k < s.len() && lo <= s[k] && s[k] <= hi {
        1
    } else {
        0
    }
}

/// The better of two candidates: the longer, or the first on equal length.
pub open spec fn better(a: (TokenKind, int), kind: TokenKind, len: int) -> (TokenKind, int) {
    if len > a.1 {
        (kind, len)
    } else {
        a
    }
}

/// The best match among the fixed tokens at `k`.
pub open spec fn literal_match(s: Seq<char>, k: int) -> (TokenKind, int) {
    let b = (TokenKind::Error, 0int);
    let b = better(b, TokenKind::ImportKW, literal_len(s, k, seq!['I', 'M', 'P', 'O', 'R', 'T']));
    let b = better(b, TokenKind::Generation, literal_len(s, k, seq!['=', '=', '?']));
    let b = better(b, TokenKind::Execution, literal_len(s, k, seq!['=', '=', '!']));
    let b = better(b, TokenKind::Substitution, literal_len(s, k, seq!['=', '=']));
    let b = better(b, TokenKind::UnnamedByte, literal_len(s, k, seq!['@']));
    let b = better(b, TokenKind::UnnamedQuotation, literal_len(s, k, seq!['?']));
    let b = better(b, TokenKind::LParen, literal_len(s, k, seq!['(']));
    let b = better(b, TokenKind::RParen, literal_len(s, k, seq![')']));
    let b = better(b, TokenKind::LBracket, literal_len(s, k, seq!['[']));
    let b = better(b, TokenKind::RBracket, literal_len(s, k, seq![']']));
    let b = better(b, TokenKind::Semicolon, literal_len(s, k, seq![';']));
    better(b, TokenKind::Dot, literal_len(s, k, seq!['.']))
}

/// `b`, or a better match among the delimited texts, comments and blanks at `k`.
pub open spec fn text_match(s: Seq<char>, k: int, b: (TokenKind, int)) -> (TokenKind, int) {
    let b = better(b, TokenKind::String, delimited_len(s, k, '"', '"'));
    let b = better(b, TokenKind::RawString, delimited_len(s, k, '\'', '\''));
    let b = better(b, TokenKind::Brainfuck, delimited_len(s, k, '`', '`'));
    let b = better(b, TokenKind::MacroInput, delimited_len(s, k, '{', '}'));
    let b = better(b, TokenKind::Comment, comment_len(s, k));
    better(b, TokenKind::Whitespace, run(s, k, CharClass::Blank))
}

/// `b`, or a better match among the numbers, letters and identifiers at `k`.
pub open spec fn word_match(s: Seq<char>, k: int, b: (TokenKind, int)) -> (TokenKind, int) {
    let b = better(b, TokenKind::HexInteger, hex_len(s, k));
    let b = better(b, TokenKind::Integer, integer_len(s, k));
    let b = better(b, TokenKind::NamedByte, letter_len(s, k, 'a', 'z'));
    let b = better(b, TokenKind::NamedQuotation, letter_len(s, k, 'A', 'Z'));
    better(b, TokenKind::Identifier, ident_len(s, k))
}

/// The kind and length of the best match of the patterns at `k`, or a length
/// of 0: the longest, and on equal length the first in the order above.
pub open spec fn best_match(s: Seq<char>, k: int) -> (TokenKind, int) {
    word_match(s, k, text_match(s, k, literal_match(s, k)))
}

/// The token at `k`: its kind and the position after it. Where no pattern
/// matches, one character is an error token.
pub open spec fn token_at(s: Seq<char>, k: int) -> (TokenKind, int) {
    let b = best_match(s, k);
    if b.1 > 0 {
        (b.0, k + b.1)
    } else {
        (TokenKind::Error, k + 1)
    }
}

/// The tokens from `k` to the end of `s`: kind, start and end of each.
pub open spec fn tokens_from(s: Seq<char>, k: int) -> Seq<(TokenKind, int, int)>
    decreases s.len() - k,
{
    if k < 0 || k >= s.len() {
        Seq::empty()
    } else {
        let (kind, e) = token_at(s, k);
        if e <= k || e > s.len() {
            Seq::empty()
        } else {
            seq![(kind, k, e)] + tokens_from(s, e)
        }
    }
}

proof fn lemma_run(s: Seq<char>, k: int, cls: CharClass)
    requires
        0 <= k <= s.len(),
    ensures
        0 <= run(s, k, cls) <= s.len() - k,
        forall|j: int| k <= j < k + run(s, k, cls) ==> in_class(#[trigger] s[j], cls),
        k + run(s, k, cls) < s.len() ==> !in_class(s[k + run(s, k, cls)], cls),
    decreases s.len() - k,
{
    if k < s.len() && in_class(s[k], cls) {
        lemma_run(s, k + 1, cls);
    }
}

/// Every pattern matches within the text.
proof fn lemma_best_match(s: Seq<char>, k: int)
    requires
        0 <= k < s.len(),
    ensures
        0 <= best_match(s, k).1 <= s.len() - k,
{
    lemma_run(s, k, CharClass::Blank);
    lemma_run(s, k + 1, CharClass::CommentChar);
    lemma_run(s, k + 1, CharClass::IdentRest);
    lemma_run(s, k + 1, CharClass::Not('"'));
    lemma_run(s, k + 1, CharClass::Not('\''));
    lemma_run(s, k + 1, CharClass::Not('`'));
    lemma_run(s, k + 1, CharClass::Not('}'));
    lemma_run(s, k + sign_len(s, k), CharClass::Digit);
    if k + sign_len(s, k) + 2 <= s.len() {
        lemma_run(s, k + sign_len(s, k) + 2, CharClass::HexDigit);
    }
}

/// A hexadecimal digit: `0`-`9`, `a`-`f` or `A`-`F`.
pub open spec fn hex_char(c: char) -> bool {
    ('0' <= c && c <= '9') || ('a' <= c && c <= 'f') || ('A' <= c && c <= 'F')
}

/// The run of a class from `k` is exactly `n` long when the class holds for the
/// `n` characters from `k` and not for the next one.
proof fn lemma_run_exact(s: Seq<char>, k: int, n: int, cls: CharClass)
    requires
        0 <= k,
        0 <= n,
        k + n <= s.len(),
        forall|j: int| k <= j < k + n ==> in_class(#[trigger] s[j], cls),
        k + n < s.len() ==> !in_class(s[k + n], cls),
    ensures
        run(s, k, cls) == n,
    decreases n,
{
    if n > 0 {
        lemma_run_exact(s, k + 1, n - 1, cls);
    }
}

/// A hexadecimal integer is one token: where `0x` or `0X` and a run of
/// hexadecimal digits start at `k` and the run ends at `e` (the end of the text or
/// a character that is no hexadecimal digit), the token at `k` is a hexadecimal
/// integer that ends at `e`. With a sign in front, the same holds when the run is
/// followed by the end of the text or a character that ends a word.
pub proof fn lemma_hex_token(s: Seq<char>, k: int, e: int)
    requires
        0 <= k < s.len(),
        ({
            let j = if s[k] == '+' || s[k] == '-' { k + 1 } else { k };
            &&& j + 2 < e <= s.len()
            &&& s[j] == '0'
            &&& (s[j + 1] == 'x' || s[j + 1] == 'X')
            &&& forall|i: int| j + 2 <= i < e ==> hex_char(#[trigger] s[i])
            &&& e < s.len() ==> !hex_char(s[e])
            &&& j == k + 1 ==> (e == s.len() || ends_ident(s[e]))
        }),
    ensures
        token_at(s, k) == (TokenKind::HexInteger, e),
{
    let j = if s[k] == '+' || s[k] == '-' { k + 1 } else { k };
    lemma_run_exact(s, j + 2, e - j - 2, CharClass::HexDigit);
    assert(hex_len(s, k) == e - k);
    lemma_run_exact(s, j, 1, CharClass::Digit);
    assert(integer_len(s, k) == j - k + 1);
    lemma_run_exact(s, k, 0, CharClass::Blank);
    if j == k + 1 {
        assert forall|i: int| k + 1 <= i < e implies in_class(#[trigger] s[i], CharClass::IdentRest) by {
            if i >= j + 2 {
                assert(hex_char(s[i]));
            }
        }
        lemma_run_exact(s, k + 1, e - k - 1, CharClass::IdentRest);
        assert(ident_len(s, k) == e - k);
    } else {
        assert(ident_len(s, k) == 0);
    }
    assert(literal_match(s, k).1 == 0) by {
        if k + 1 <= s.len() {
            assert(s.subrange(k, k + 1)[0] == s[k]);
        }
        if k + 2 <= s.len() {
            assert(s.subrange(k, k + 2)[0] == s[k]);
        }
        if k + 3 <= s.len() {
            assert(s.subrange(k, k + 3)[0] == s[k]);
        }
        if k + 6 <= s.len() {
            assert(s.subrange(k, k + 6)[0] == s[k]);
        }
    }
}

/// A decimal integer is one token: where a run of decimal digits starts at `k`
/// and ends at `e` (the end of the text or a character that is no digit), and it
/// is not the `0` of a `0x`, the token at `k` is an integer that ends at `e`.
pub proof fn lemma_integer_token(s: Seq<char>, k: int, e: int)
    requires
        0 <= k < e <= s.len(),
        forall|i: int| k <= i < e ==> ('0' <= #[trigger] s[i] && s[i] <= '9'),
        e < s.len() ==> !('0' <= s[e] && s[e] <= '9'),
        !(e == k + 1 && s[k] == '0' && e < s.len() && (s[e] == 'x' || s[e] == 'X')),
    ensures
        token_at(s, k) == (TokenKind::Integer, e),
{
    lemma_run_exact(s, k, e - k, CharClass::Digit);
    lemma_run_exact(s, k, 0, CharClass::Blank);
    assert(hex_len(s, k) == 0);
    assert(ident_len(s, k) == 0);
    assert(literal_match(s, k).1 == 0) by {
        if k + 1 <= s.len() {
            assert(s.subrange(k, k + 1)[0] == s[k]);
        }
        if k + 2 <= s.len() {
            assert(s.subrange(k, k + 2)[0] == s[k]);
        }
        if k + 3 <= s.len() {
            assert(s.subrange(k, k + 3)[0] == s[k]);
        }
        if k + 6 <= s.len() {
            assert(s.subrange(k, k + 6)[0] == s[k]);
        }
    }
}

/// A quoted text is one token: where `"`, `'` or a backquote opens at `k` and
/// first closes at `c`, the token at `k` is a string, a raw string or a Brainfuck
/// block that ends after `c`, unless the text goes on as a word after the closing
/// character; a macro input from `{` to the first `}` is always one token.
pub proof fn lemma_quoted_token(s: Seq<char>, k: int, c: int)
    requires
        0 <= k < c < s.len(),
        s[k] == '"' || s[k] == '\'' || s[k] == '`' || s[k] == '{',
        s[c] == (if s[k] == '{' { '}' } else { s[k] }),
        forall|i: int| k < i < c ==> #[trigger] s[i] != s[c],
        s[k] != '{' ==> (c + 1 == s.len() || ends_ident(s[c + 1])),
    ensures
        token_at(s, k) == (if s[k] == '"' {
            TokenKind::String
        } else if s[k] == '\'' {
            TokenKind::RawString
        } else if s[k] == '`' {
            TokenKind::Brainfuck
        } else {
            TokenKind::MacroInput
        }, c + 1),
{
    lemma_run_exact(s, k + 1, c - k - 1, CharClass::Not(s[c]));
    lemma_run_exact(s, k, 0, CharClass::Blank);
    lemma_run(s, k + 1, CharClass::IdentRest);
    if s[k] != '{' {
        if k + 1 + run(s, k + 1, CharClass::IdentRest) > c + 1 {
            assert(in_class(s[c + 1], CharClass::IdentRest));
        }
    }
    assert(literal_match(s, k).1 == 0) by {
        if k + 1 <= s.len() {
            assert(s.subrange(k, k + 1)[0] == s[k]);
        }
        if k + 2 <= s.len() {
            assert(s.subrange(k, k + 2)[0] == s[k]);
        }
        if k + 3 <= s.len() {
            assert(s.subrange(k, k + 3)[0] == s[k]);
        }
        if k + 6 <= s.len() {
            assert(s.subrange(k, k + 6)[0] == s[k]);
        }
    }
}

/// A token at `k` ends after `k` and within the text.
pub proof fn lemma_token_at(s: Seq<char>, k: int)
    requires
        0 <= k < s.len(),
    ensures
        k < token_at(s, k).1 <= s.len(),
{
    lemma_best_match(s, k);
}

/// The tokens cover the text from `k` to its end, one after the other, each the
/// token `token_at` finds where the one before ends.
pub proof fn lemma_tokens_cover(s: Seq<char>, k: int)
    requires
        0 <= k <= s.len(),
    ensures
        tokens_from(s, k).len() == 0 <==> k == s.len(),
        tokens_from(s, k).len() > 0 ==> tokens_from(s, k)[0].1 == k && tokens_from(s, k).last().2
            == s.len(),
        forall|i: int|
            0 <= i < tokens_from(s, k).len() ==> {
                let t = #[trigger] tokens_from(s, k)[i];
                t.1 < t.2 && (t.0, t.2) == token_at(s, t.1)
            },
        forall|i: int|
            0 <= i < tokens_from(s, k).len() - 1 ==> #[trigger] tokens_from(s, k)[i].2 == tokens_from(
                s,
                k,
            )[i + 1].1,
    decreases s.len() - k,
{
    if k < s.len() {
        lemma_token_at(s, k);
        let e = token_at(s, k).1;
        lemma_tokens_cover(s, e);
        let rest = tokens_from(s, e);
        let all = tokens_from(s, k);
        assert(all == seq![(token_at(s, k).0, k, e)] + rest);
        assert forall|i: int| 0 <= i < all.len() implies {
            let t = #[trigger] all[i];
            t.1 < t.2 && (t.0, t.2) == token_at(s, t.1)
        } by {
            if i > 0 {
                assert(all[i] == rest[i - 1]);
            }
        }
        assert forall|i: int| 0 <= i < all.len() - 1 implies #[trigger] all[i].2 == all[i + 1].1 by {
            assert(all[i + 1] == rest[i]);
            if i > 0 {
                assert(all[i] == rest[i - 1]);
            }
        }
        if rest.len() > 0 {
            assert(all.last() == rest.last());
        }
    }
}

fn in_class_exec(c: char, cls: &CharClass) -> (r: bool)
    ensures
        r == in_class(c, *cls),
{
    match cls {
        CharClass::Blank => c == ' ' || c == '\t' || c == '\n' || c == '\x0C',
        CharClass::CommentChar => c != '\r' && c != '\n',
        CharClass::Digit => '0' <= c && c <= '9',
        CharClass::HexDigit => ('0' <= c && c <= '9') || ('a' <= c && c <= 'f') || ('A' <= c
            && c <= 'F'),
        CharClass::Not(x) => c != *x,
        CharClass::IdentRest => !(c == ' ' || c == '\t' || c == '\n' || c == '\x0C' || c == ';'
            || c == '#' || c == '@' || c == '?' || c == '(' || c == ')' || c == '[' || c == ']'
            || c == '{' || c == '}'),
    }
}

fn run_exec(s: &Vec<char>, k: usize, cls: CharClass) -> (r: usize)
    requires
        k <= s@.len(),
    ensures
        r == run(s@, k as int, cls),
        r <= s@.len() - k,
{
    let mut j = k;
    proof {
        lemma_run(s@, k as int, cls);
    }
    while j < s.len() && in_class_exec(s[j], &cls)
        invariant
            k <= j <= s@.len(),
            run(s@, k as int, cls) == (j - k) + run(s@, j as int, cls),
        decreases s@.len() - j,
    {
        j = j + 1;
    }
    j - k
}

fn literal_len_exec(s: &Vec<char>, k: usize, lit: &Vec<char>) -> (r: usize)
    requires
        k <= s@.len(),
    ensures
        r == literal_len(s@, k as int, lit@),
{
    let _len = s.len();
    let n = lit.len();
    if n > s.len() - k {
        return 0;
    }
    let end = k + n;
    let mut i: usize = 0;
    while i < n
        invariant
            i <= n,
            n == lit@.len(),
            end == k + n,
            k + n <= s@.len(),
            forall|j: int| 0 <= j < i ==> s@[k + j] == lit@[j],
        decreases n - i,
    {
        if s[k + i] != lit[i] {
            assert(s@.subrange(k as int, k + n)[i as int] != lit@[i as int]);
            return 0;
        }
        i = i + 1;
    }
    assert(s@.subrange(k as int, k + n) =~= lit@);
    n
}

fn delimited_len_exec(s: &Vec<char>, k: usize, open: char, close: char) -> (r: usize)
    requires
        k < s@.len(),
    ensures
        r == delimited_len(s@, k as int, open, close),
{
    let _len = s.len();
    if s[k] != open {
        return 0;
    }
    let r = run_exec(s, k + 1, CharClass::Not(close));
    proof {
        lemma_run(s@, k + 1, CharClass::Not(close));
    }
    if k + 1 + r < s.len() {
        r + 2
    } else {
        0
    }
}

fn sign_len_exec(s: &Vec<char>, k: usize) -> (r: usize)
    requires
        k < s@.len(),
    ensures
        r == sign_len(s@, k as int),
{
    let _len = s.len();
    if s[k] == '+' || s[k] == '-' {
        1
    } else {
        0
    }
}

fn integer_len_exec(s: &Vec<char>, k: usize) -> (r: usize)
    requires
        k < s@.len(),
    ensures
        r == integer_len(s@, k as int),
{
    let _len = s.len();
    let sg = sign_len_exec(s, k);
    let d = run_exec(s, k + sg, CharClass::Digit);
    proof {
        lemma_run(s@, k + sg, CharClass::Digit);
    }
    if d > 0 {
        sg + d
    } else {
        0
    }
}

fn hex_len_exec(s: &Vec<char>, k: usize) -> (r: usize)
    requires
        k < s@.len(),
    ensures
        r == hex_len(s@, k as int),
{
    let _len = s.len();
    let sg = sign_len_exec(s, k);
    let j = k + sg;
    if j < s.len() && s.len() - j > 1 && s[j] == '0' && (s[j + 1] == 'x' || s[j + 1] == 'X') {
        let h = run_exec(s, j + 2, CharClass::HexDigit);
        proof {
            lemma_run(s@, j + 2, CharClass::HexDigit);
        }
        if h > 0 {
            sg + 2 + h
        } else {
            0
        }
    } else {
        0
    }
}

fn comment_len_exec(s: &Vec<char>, k: usize) -> (r: usize)
    requires
        k < s@.len(),
    ensures
        r == comment_len(s@, k as int),
{
    let _len = s.len();
    if s[k] == '#' {
        let r = run_exec(s, k + 1, CharClass::CommentChar);
        proof {
            lemma_run(s@, k + 1, CharClass::CommentChar);
        }
        1 + r
    } else {
        0
    }
}

fn ident_len_exec(s: &Vec<char>, k: usize) -> (r: usize)
    requires
        k < s@.len(),
    ensures
        r == ident_len(s@, k as int),
{
    let _len = s.len();
    let c = s[k];
    if !in_class_exec(c, &CharClass::IdentRest) || ('0' <= c && c <= '9') {
        return 0;
    }
    let r = run_exec(s, k + 1, CharClass::IdentRest);
    proof {
        lemma_run(s@, k + 1, CharClass::IdentRest);
    }
    1 + r
}

fn letter_len_exec(s: &Vec<char>, k: usize, lo: char, hi: char) -> (r: usize)
    requires
        k < s@.len(),
    ensures
        r == letter_len(s@, k as int, lo, hi),
{
    let _len = s.len();
    if lo <= s[k] && s[k] <= hi {
        1
    } else {
        0
    }
}

fn better_exec(a: (TokenKind, usize), kind: TokenKind, len: usize) -> (r: (TokenKind, usize))
    ensures
        (r.0, r.1 as int) == better((a.0, a.1 as int), kind, len as int),
{
    if len > a.1 {
        (kind, len)
    } else {
        a
    }
}

fn literal_match_exec(s: &Vec<char>, k: usize) -> (r: (TokenKind, usize))
    requires
        k < s@.len(),
    ensures
        (r.0, r.1 as int) == literal_match(s@, k as int),
{
    let l1 = vec!['I', 'M', 'P', 'O', 'R', 'T'];
    assert(l1@ =~= seq!['I', 'M', 'P', 'O', 'R', 'T']);
    let l2 = vec!['=', '=', '?'];
    assert(l2@ =~= seq!['=', '=', '?']);
    let l3 = vec!['=', '=', '!'];
    assert(l3@ =~= seq!['=', '=', '!']);
    let l4 = vec!['=', '='];
    assert(l4@ =~= seq!['=', '=']);
    let l5 = vec!['@'];
    assert(l5@ =~= seq!['@']);
    let l6 = vec!['?'];
    assert(l6@ =~= seq!['?']);
    let l7 = vec!['('];
    assert(l7@ =~= seq!['(']);
    let l8 = vec![')'];
    assert(l8@ =~= seq![')']);
    let l9 = vec!['['];
    assert(l9@ =~= seq!['[']);
    let l10 = vec![']'];
    assert(l10@ =~= seq![']']);
    let l11 = vec![';'];
    assert(l11@ =~= seq![';']);
    let l12 = vec!['.'];
    assert(l12@ =~= seq!['.']);
    let b = (TokenKind::Error, 0usize);
    let b = better_exec(b, TokenKind::ImportKW, literal_len_exec(s, k, &l1));
    let b = better_exec(b, TokenKind::Generation, literal_len_exec(s, k, &l2));
    let b = better_exec(b, TokenKind::Execution, literal_len_exec(s, k, &l3));
    let b = better_exec(b, TokenKind::Substitution, literal_len_exec(s, k, &l4));
    let b = better_exec(b, TokenKind::UnnamedByte, literal_len_exec(s, k, &l5));
    let b = better_exec(b, TokenKind::UnnamedQuotation, literal_len_exec(s, k, &l6));
    let b = better_exec(b, TokenKind::LParen, literal_len_exec(s, k, &l7));
    let b = better_exec(b, TokenKind::RParen, literal_len_exec(s, k, &l8));
    let b = better_exec(b, TokenKind::LBracket, literal_len_exec(s, k, &l9));
    let b = better_exec(b, TokenKind::RBracket, literal_len_exec(s, k, &l10));
    let b = better_exec(b, TokenKind::Semicolon, literal_len_exec(s, k, &l11));
    better_exec(b, TokenKind::Dot, literal_len_exec(s, k, &l12))
}

fn text_match_exec(s: &Vec<char>, k: usize, b: (TokenKind, usize)) -> (r: (TokenKind, usize))
    requires
        k < s@.len(),
    ensures
        (r.0, r.1 as int) == text_match(s@, k as int, (b.0, b.1 as int)),
{
    let b = better_exec(b, TokenKind::String, delimited_len_exec(s, k, '"', '"'));
    let b = better_exec(b, TokenKind::RawString, delimited_len_exec(s, k, '\'', '\''));
    let b = better_exec(b, TokenKind::Brainfuck, delimited_len_exec(s, k, '`', '`'));
    let b = better_exec(b, TokenKind::MacroInput, delimited_len_exec(s, k, '{', '}'));
    let b = better_exec(b, TokenKind::Comment, comment_len_exec(s, k));
    better_exec(b, TokenKind::Whitespace, run_exec(s, k, CharClass::Blank))
}

fn word_match_exec(s: &Vec<char>, k: usize, b: (TokenKind, usize)) -> (r: (TokenKind, usize))
    requires
        k < s@.len(),
    ensures
        (r.0, r.1 as int) == word_match(s@, k as int, (b.0, b.1 as int)),
{
    let b = better_exec(b, TokenKind::HexInteger, hex_len_exec(s, k));
    let b = better_exec(b, TokenKind::Integer, integer_len_exec(s, k));
    let b = better_exec(b, TokenKind::NamedByte, letter_len_exec(s, k, 'a', 'z'));
    let b = better_exec(b, TokenKind::NamedQuotation, letter_len_exec(s, k, 'A', 'Z'));
    better_exec(b, TokenKind::Identifier, ident_len_exec(s, k))
}

/// The token at `pos` of the characters `s`: its kind and the position after it.
pub fn token_at_chars(s: &Vec<char>, pos: usize) -> (r: (TokenKind, usize))
    requires
        pos < s@.len(),
    ensures
        pos < r.1 <= s@.len(),
        (r.0, r.1 as int) == token_at(s@, pos as int),
{
    let b = literal_match_exec(s, pos);
    let b = text_match_exec(s, pos, b);
    let b = word_match_exec(s, pos, b);
    proof {
        lemma_best_match(s@, pos as int);
    }
    let _len = s.len();
    if b.1 > 0 {
        (b.0, pos + b.1)
    } else {
        (TokenKind::Error, pos + 1)
    }
}

/// The characters of `text`.
fn chars_of(text: &str) -> (r: Vec<char>)
    ensures
        r@ == text@,
{
    let mut chars: Vec<char> = Vec::new();
    let mut it = text.chars();
    loop
        invariant
            it.remaining() == text@.subrange(chars@.len() as int, text@.len() as int),
            chars@ == text@.subrange(0, chars@.len() as int),
            chars@.len() <= text@.len(),
        ensures
            chars@ == text@,
        decreases text@.len() - chars@.len(),
    {
        match it.next() {
            Some(c) => {
                chars.push(c);
                assert(chars@ =~= text@.subrange(0, chars@.len() as int));
            },
            None => {
                assert(chars@ =~= text@);
                break;
            },
        }
    }
    chars
}

/// The token at the character position `pos` of `input`: its kind and the
/// position after it.
pub fn next_token(input: &str, pos: usize) -> (r: (TokenKind, usize))
    requires
        pos < input@.len(),
    ensures
        pos < r.1 <= input@.len(),
        (r.0, r.1 as int) == token_at(input@, pos as int),
{
    let chars = chars_of(input);
    token_at_chars(&chars, pos)
}

/// The tokens that carry data, as values.
pub open spec fn tokens_view(v: Seq<(TokenKind, Span, TokenData)>) -> Seq<(TokenKind, SpanModel, DataModel)> {
    v.map_values(|t: (TokenKind, Span, TokenData)| (t.0, t.1@, t.2@))
}

/// The refusals, as values.
pub open spec fn errors_view(v: Seq<TokenizerError>) -> Seq<TokenErrModel> {
    v.map_values(|e: TokenizerError| e@)
}

/// The outcome of the token `m` of `s` in the file `file_id`.
pub open spec fn outcome(s: Seq<char>, m: (TokenKind, int, int), file_id: usize) -> Result<DataModel, TokenErrModel> {
    token_result(m.0, s.subrange(m.1, m.2), char_span(s, m.1, m.2, file_id))
}

/// The tokens among `ms` whose text is accepted, with their spans and data, in
/// order.
pub open spec fn lexed_tokens(s: Seq<char>, ms: Seq<(TokenKind, int, int)>, file_id: usize) -> Seq<
    (TokenKind, SpanModel, DataModel),
>
    decreases ms.len(),
{
    if ms.len() == 0 {
        Seq::empty()
    } else {
        let prev = lexed_tokens(s, ms.drop_last(), file_id);
        let m = ms.last();
        match outcome(s, m, file_id) {
            Ok(d) => prev.push((m.0, char_span(s, m.1, m.2, file_id), d)),
            Err(_) => prev,
        }
    }
}

/// The refusals of the tokens among `ms` whose text is refused, in order.
pub open spec fn lexed_errors(s: Seq<char>, ms: Seq<(TokenKind, int, int)>, file_id: usize) -> Seq<TokenErrModel>
    decreases ms.len(),
{
    if ms.len() == 0 {
        Seq::empty()
    } else {
        let prev = lexed_errors(s, ms.drop_last(), file_id);
        match outcome(s, ms.last(), file_id) {
            Ok(_) => prev,
            Err(e) => prev.push(e),
        }
    }
}

/// Splits `input` into tokens by the token grammar, and turns the text of each
/// into its data with `token_data`: the tokens it accepts, with their spans in
/// the file `file_id`, and the refusals of the others, both in order. The byte
/// offsets must fit in `usize`.
pub fn tokenize(input: &str, file_id: usize) -> (r: (Vec<(TokenKind, Span, TokenData)>, Vec<TokenizerError>))
    requires
        text_fits(input@),
    ensures
        tokens_view(r.0@) == lexed_tokens(input@, tokens_from(input@, 0), file_id),
        errors_view(r.1@) == lexed_errors(input@, tokens_from(input@, 0), file_id),
{
    let mut tokens: Vec<(TokenKind, Span, TokenData)> = Vec::new();
    let mut errors: Vec<TokenizerError> = Vec::new();
    let src = match Source::new(input) {
        Some(src) => src,
        None => return (tokens, errors),
    };
    let n = src.chars.len();
    let mut pos: usize = 0;
    let ghost mut done: Seq<(TokenKind, int, int)> = Seq::empty();
    assert(done + tokens_from(input@, 0) =~= tokens_from(input@, 0));
    while pos < n
        invariant
            src.wf(),
            src.chars@ == input@,
            n == input@.len(),
            pos <= n,
            done + tokens_from(input@, pos as int) == tokens_from(input@, 0),
            tokens_view(tokens@) == lexed_tokens(input@, done, file_id),
            errors_view(errors@) == lexed_errors(input@, done, file_id),
        decreases n - pos,
    {
        let (kind, end) = token_at_chars(&src.chars, pos);
        let slice = input.substring_char(pos, end);
        proof {
            lemma_byte_offset_mono(input@, pos as int, end as int);
        }
        let span = Span::new(src.offsets[pos], src.offsets[end], file_id);
        let result = token_data(kind, slice, span);
        let ghost m = (kind, pos as int, end as int);
        proof {
            assert(span@ == char_span(input@, pos as int, end as int, file_id));
            assert(tokens_from(input@, pos as int) == seq![m] + tokens_from(input@, end as int));
            assert(done.push(m) + tokens_from(input@, end as int) =~= done + (seq![m] + tokens_from(
                input@,
                end as int,
            )));
            assert(done.push(m).drop_last() =~= done);
        }
        match result {
            Ok(d) => {
                tokens.push((kind, span, d));
                proof {
                    assert(tokens_view(tokens@) =~= lexed_tokens(input@, done, file_id).push(
                        (kind, span@, d@),
                    ));
                }
            },
            Err(e) => {
                errors.push(e);
                proof {
                    assert(errors_view(errors@) =~= lexed_errors(input@, done, file_id).push(e@));
                }
            },
        }
        proof {
            done = done.push(m);
        }
        pos = end;
    }
    (tokens, errors)
}

} // verus!
