//! Parsing Serotonin source text into modules.
//!
//! ```text
//! module     = ("IMPORT" word* ";")? definition*
//! definition = word stack? ("==" | "==!" | "==?") term ";"
//! stack      = "(" (lowercase | uppercase | digits | "@" | "?" | "_")* ")"
//! term       = factor*
//! factor     = word | digits | "0x" hexdigits | string | raw string
//!            | "`" brainfuck "`" | "[" term "]" | "{" input "}" word
//! ```
//! Words are runs of characters other than blanks and `; ( ) [ ] { } ` " ' #`;
//! `#` starts a comment that runs to the end of the line.
use vstd::prelude::*;
use vstd::string::StringExecFns;

use crate::compiler::ast::DefinitionGroup;
use crate::compiler::ast::Definition;
use crate::compiler::ast::DefinitionType;
use crate::compiler::ast::Expression;
use crate::compiler::ast::ModuleAst;
use crate::compiler::ast::StackArg;
use crate::compiler::ast::StackArgs;
use crate::compiler::source::Source;
use crate::span::Span;
use crate::span::SpanModel;
use crate::compiler::ast::ExprModel;
use crate::lexer::all_digits;
use crate::lexer::digits_value;
use crate::lexer::is_digit;
use crate::lexer::digit_value;

use crate::compiler::text::push_char;
use crate::compiler::grammar::is_blank;
use crate::compiler::grammar::is_word_char;
use crate::compiler::grammar::byte_of_digits;
use crate::compiler::grammar::first_utf8_byte;
use crate::compiler::grammar::word_number;
use crate::compiler::grammar::first_dot;
use crate::compiler::grammar::word_call;
use crate::compiler::grammar::char_span;
use crate::compiler::grammar::find_char;
use crate::compiler::grammar::lemma_find_char;
use crate::compiler::grammar::skip_blank_s;
use crate::compiler::grammar::lemma_skip_blank;
use crate::compiler::grammar::word_end_s;
use crate::compiler::grammar::lemma_word_end;
use crate::compiler::grammar::prepend;
use crate::compiler::grammar::lemma_prepend_prepend;
use crate::compiler::grammar::simple_escape;
use crate::compiler::grammar::string_chars;
use crate::compiler::grammar::string_s;
use crate::compiler::grammar::lemma_string_chars_end;
use crate::compiler::grammar::word_s;
use crate::compiler::grammar::factor_s;
use crate::compiler::grammar::term_s;
use crate::compiler::grammar::lemma_term_skip;
use crate::compiler::grammar::stack_entry_s;
use crate::compiler::grammar::stack_entries_s;
use crate::compiler::grammar::lemma_stack_entries_skip;
use crate::compiler::grammar::letters_in;
use crate::compiler::grammar::letter_number;
use crate::compiler::grammar::numbered;
use crate::compiler::grammar::stack_s;
use crate::compiler::grammar::lemma_letters_in_prefix;
use crate::compiler::grammar::reserved_name;
use crate::compiler::grammar::reserved_message;
use crate::compiler::grammar::byte_message;
use crate::compiler::grammar::refusal_s;
use crate::compiler::grammar::refused_s;
use crate::compiler::grammar::module_refused_s;
use crate::compiler::grammar::def_type_s;
use crate::compiler::grammar::definition_s;
use crate::compiler::ast::stack_view;
use crate::compiler::ast::defs_view;
use crate::compiler::ast::groups_view;
use crate::compiler::ast::imports_view;
use crate::compiler::ast::DefModel;
use crate::compiler::grammar::prepend_list;
use crate::compiler::grammar::imports_s;
use crate::compiler::grammar::definitions_s;
use crate::compiler::grammar::prepend_defs;
use crate::compiler::grammar::lemma_lists_skip;
use crate::compiler::grammar::group_index;
use crate::compiler::grammar::lemma_group_index;
use crate::compiler::grammar::add_to_groups;
use crate::compiler::grammar::groups_of;
use crate::compiler::grammar::module_s;
use crate::compiler::grammar::lemma_module_shape;
use crate::compiler::ast::groups_shape_ok;
use crate::compiler::source::text_fits;
use crate::compiler::ast::exprs_view;
use crate::compiler::ast::lemma_exprs_view_len;
use crate::compiler::ast::lemma_exprs_view_index;
use crate::compiler::ast::lemma_exprs_view_push;

verus! {

/// A syntax error: what was expected, and where.
#[derive(Debug, Clone, PartialEq, Eq)]
pub struct ParseError {
    pub expected: String,
    pub span: Span,
}

fn blank(c: char) -> (r: bool)
    ensures
        r == is_blank(c),
{
    c == ' ' || c == '\t' || c == '\n' || c == '\r'
}

fn word_char(c: char) -> (r: bool)
    ensures
        r == is_word_char(c),
{
    !blank(c) && c != ';' && c != '(' && c != ')' && c != '[' && c != ']' && c != '{' && c != '}'
        && c != '`' && c != '"' && c != '\'' && c != '#'
}

/// Skips blanks and comments from `pos`.
fn skip_blank(src: &Source, pos: usize) -> (r: usize)
    requires
        pos <= src.chars@.len(),
    ensures
        r == skip_blank_s(src.chars@, pos as int),
        pos <= r <= src.chars@.len(),
        r < src.chars@.len() ==> !is_blank(src.chars@[r as int]) && src.chars@[r as int] != '#',
{
    proof {
        lemma_skip_blank(src.chars@, pos as int);
    }
    let n = src.chars.len();
    let mut p = pos;
    while p < n
        invariant
            pos <= p <= n,
            n == src.chars@.len(),
            skip_blank_s(src.chars@, p as int) == skip_blank_s(src.chars@, pos as int),
        decreases n - p,
    {
        let c = src.chars[p];
        if blank(c) {
            p = p + 1;
        } else if c == '#' {
            let start = p;
            p = p + 1;
            proof {
                lemma_find_char(src.chars@, p as int, '\n');
            }
            while p < n && src.chars[p] != '\n'
                invariant
                    start < p <= n,
                    pos <= p,
                    n == src.chars@.len(),
                    start < n,
                    find_char(src.chars@, p as int, '\n') == find_char(src.chars@, start + 1, '\n'),
                decreases n - p,
            {
                p = p + 1;
            }
        } else {
            return p;
        }
    }
    p
}

/// The byte a one-letter escape `\\e` stands for.
fn escape_byte(e: char) -> (r: Option<u8>)
    ensures
        r == simple_escape(e),
{
    if e == '\\' {
        Some(92)
    } else if e == '"' {
        Some(34)
    } else if e == '/' {
        Some(47)
    } else if e == 'b' {
        Some(8)
    } else if e == 'f' {
        Some(12)
    } else if e == 'n' {
        Some(10)
    } else if e == 'r' {
        Some(13)
    } else if e == 't' {
        Some(9)
    } else if e == '0' {
        Some(0)
    } else {
        None
    }
}

/// The end of the word that starts at `pos`.
fn word_end(src: &Source, pos: usize) -> (r: usize)
    requires
        pos <= src.chars@.len(),
    ensures
        r == word_end_s(src.chars@, pos as int),
        pos <= r <= src.chars@.len(),
        forall|k: int| pos <= k < r ==> is_word_char(#[trigger] src.chars@[k]),
        r < src.chars@.len() ==> !is_word_char(src.chars@[r as int]),
{
    proof {
        lemma_word_end(src.chars@, pos as int);
    }
    let n = src.chars.len();
    let mut p = pos;
    while p < n && word_char(src.chars[p])
        invariant
            pos <= p <= n,
            n == src.chars@.len(),
            word_end_s(src.chars@, p as int) == word_end_s(src.chars@, pos as int),
        decreases n - p,
    {
        p = p + 1;
    }
    p
}

/// The characters from `from` to `to` as a string.
fn text(src: &Source, from: usize, to: usize) -> (r: String)
    requires
        from <= to <= src.chars@.len(),
    ensures
        r@ == src.chars@.subrange(from as int, to as int),
{
    let mut s = String::new();
    let mut k = from;
    while k < to
        invariant
            from <= k <= to,
            to <= src.chars@.len(),
            s@ == src.chars@.subrange(from as int, k as int),
        decreases to - k,
    {
        push_char(&mut s, src.chars[k]);
        k = k + 1;
        assert(s@ =~= src.chars@.subrange(from as int, k as int));
    }
    s
}


/// The value of a decimal digit or of a hexadecimal digit, if `c` is one.
fn digit(c: char, radix: u32) -> (r: Option<u32>)
    requires
        radix == 10 || radix == 16,
    ensures
        r is Some == is_digit(c, radix as int),
        r matches Some(d) ==> d == digit_value(c),
{
    if '0' <= c && c <= '9' {
        Some((c as u32) - ('0' as u32))
    } else if radix == 16 && 'a' <= c && c <= 'f' {
        Some((c as u32) - ('a' as u32) + 10)
    } else if radix == 16 && 'A' <= c && c <= 'F' {
        Some((c as u32) - ('A' as u32) + 10)
    } else {
        None
    }
}

proof fn lemma_digits_value_nonneg(w: Seq<char>, radix: int)
    requires
        all_digits(w, radix),
        radix >= 2,
    ensures
        digits_value(w, radix) >= 0,
    decreases w.len(),
{
    if w.len() > 0 {
        lemma_digits_value_nonneg(w.drop_last(), radix);
        assert(is_digit(w[w.len() - 1], radix));
        assert(digits_value(w.drop_last(), radix) * radix >= 0) by (nonlinear_arith)
            requires
                digits_value(w.drop_last(), radix) >= 0,
                radix >= 2,
        ;
    }
}

/// The number the characters from `from` to `to` write in base `radix`.
fn byte_value(src: &Source, from: usize, to: usize, radix: u32) -> (r: Result<u8, bool>)
    requires
        from <= to <= src.chars@.len(),
        radix == 10 || radix == 16,
    ensures
        r == byte_of_digits(src.chars@.subrange(from as int, to as int), radix as int),
{
    let ghost w = src.chars@.subrange(from as int, to as int);
    if from == to {
        return Err(false);
    }
    let mut value: u32 = 0;
    let mut large = false;
    let mut k = from;
    while k < to
        invariant
            from <= k <= to,
            to <= src.chars@.len(),
            w == src.chars@.subrange(from as int, to as int),
            value < 256,
            radix == 10 || radix == 16,
            all_digits(src.chars@.subrange(from as int, k as int), radix as int),
            !large ==> value == digits_value(src.chars@.subrange(from as int, k as int), radix as int),
            large ==> digits_value(src.chars@.subrange(from as int, k as int), radix as int) > 255,
        decreases to - k,
    {
        let ghost pre = src.chars@.subrange(from as int, k as int);
        let ghost post = src.chars@.subrange(from as int, k + 1);
        proof {
            assert(post.drop_last() =~= pre);
            assert(post.last() == src.chars@[k as int]);
        }
        match digit(src.chars[k], radix) {
            Some(d) => {
                proof {
                    lemma_digits_value_nonneg(pre, radix as int);
                    assert(all_digits(post, radix as int)) by {
                        assert forall|j: int| 0 <= j < post.len() implies is_digit(#[trigger] post[j], radix as int) by {
                            if j < pre.len() {
                                assert(post[j] == pre[j]);
                            }
                        }
                    }
                    assert(digits_value(post, radix as int) == digits_value(pre, radix as int) * radix + d);
                    if large {
                        assert(digits_value(pre, radix as int) * radix >= digits_value(pre, radix as int)) by (nonlinear_arith)
                            requires
                                digits_value(pre, radix as int) >= 0,
                                radix >= 2,
                        ;
                    }
                }
                if !large {
                    let v = value * radix + d;
                    if v > 255 {
                        large = true;
                    } else {
                        value = v;
                    }
                }
            },
            None => {
                proof {
                    assert(!is_digit(w[k - from], radix as int));
                    assert(w[k - from] == src.chars@[k as int]);
                }
                return Err(false);
            },
        }
        k = k + 1;
    }
    assert(src.chars@.subrange(from as int, k as int) =~= w);
    if large {
        Err(true)
    } else {
        Ok(value as u8)
    }
}

fn first_byte(c: char) -> (r: u8)
    ensures
        r == first_utf8_byte(c),
{
    let v = c as u32;
    if v < 0x80 {
        v as u8
    } else if v < 0x800 {
        (0xC0 + v / 64) as u8
    } else if v < 0x10000 {
        (0xE0 + v / 4096) as u8
    } else {
        assert(v <= 0x10FFFF);
        (0xF0 + v / 262144) as u8
    }
}

/// What parsing a piece of a definition gave: the result and the position after
/// it, or a syntax error. `invalid` is set when a number does not fit in a byte or
/// an escape is unknown: the definition is then left out of the module.
pub struct Parsed<T> {
    pub value: T,
    pub end: usize,
    pub invalid: bool,
}

/// Where the parsers work.
pub struct Cursor<'a> {
    pub src: &'a Source,
    pub file_id: usize,
}

impl<'a> Cursor<'a> {
    fn error(&self, expected: &str, at: usize) -> (r: ParseError)
        requires
            self.src.wf(),
            at <= self.src.chars@.len(),
        ensures
            r.expected@ == expected@,
            r.span@ == char_span(
                self.src.chars@,
                at as int,
                if at < self.src.chars@.len() {
                    at + 1
                } else {
                    at as int
                },
                self.file_id,
            ),
    {
        let to = if at < self.src.chars.len() {
            at + 1
        } else {
            at
        };
        ParseError { expected: String::from_str(expected), span: self.src.span(at, to, self.file_id) }
    }

    /// A string or a raw string starting at `pos`, on the quote `quote`. Each
    /// character becomes a constant; a string also starts with a 0 byte.
    fn parse_string(&self, pos: usize, quote: char) -> (r: Result<Parsed<Expression>, ParseError>)
        requires
            self.src.wf(),
            pos < self.src.chars@.len(),
            self.src.chars@[pos as int] == quote,
        ensures
            r is Ok <==> string_s(self.src.chars@, pos as int, self.file_id) is Some,
            r matches Ok(p) ==> string_s(self.src.chars@, pos as int, self.file_id) == Some(
                (p.value@, p.end as int, p.invalid),
            ),
            r matches Ok(p) ==> pos < p.end <= self.src.chars@.len(),
    {
        let src = self.src;
        let ghost s = src.chars@;
        let ghost f = self.file_id;
        let n = src.chars.len();
        let mut constants: Vec<Expression> = Vec::new();
        let escapes = quote == '"';
        let ghost lead = if escapes {
            seq![ExprModel::Constant(0, char_span(s, pos as int, pos + 1, f))]
        } else {
            Seq::<ExprModel>::empty()
        };
        if escapes {
            constants.push(Expression::Constant(0, src.span(pos, pos + 1, self.file_id)));
        }
        proof {
            lemma_exprs_view_len(constants@);
            if escapes {
                lemma_exprs_view_index(constants@, 0);
            }
            assert(exprs_view(constants@) =~= lead);
            assert(Seq::<ExprModel>::empty() + lead =~= lead);
        }
        let mut invalid = false;
        let mut k = pos + 1;
        while k < n && src.chars[k] != quote
            invariant
                pos < k <= n,
                n == src.chars@.len(),
                s == src.chars@,
                f == self.file_id,
                src == self.src,
                self.src.wf(),
                escapes == (quote == '"'),
                s[pos as int] == quote,
                prepend(lead, false, string_chars(s, pos + 1, quote, f)) == prepend(
                    exprs_view(constants@),
                    invalid,
                    string_chars(s, k as int, quote, f),
                ),
            decreases n - k,
        {
            let ghost before = exprs_view(constants@);
            let ghost inv0 = invalid;
            let c = src.chars[k];
            if escapes && c == '\\' {
                if k + 1 >= n {
                    assert(string_chars(s, k as int, quote, f) is None);
                    return Err(self.error("an escape sequence", k));
                }
                let e = src.chars[k + 1];
                match escape_byte(e) {
                    Some(b) => {
                        let x = Expression::Constant(b, src.span(k, k + 2, self.file_id));
                        proof {
                            lemma_prepend_prepend(before, inv0, seq![x@], false, string_chars(s, k + 2, quote, f));
                            lemma_exprs_view_push(constants@, x);
                            assert(before.push(x@) =~= before + seq![x@]);
                        }
                        constants.push(x);
                        k = k + 2;
                    },
                    None => {
                        if e == 'x' && n - k > 3 {
                            match byte_value(src, k + 2, k + 4, 16) {
                                Ok(b) => {
                                    let x = Expression::Constant(b, src.span(k, k + 4, self.file_id));
                                    proof {
                                        lemma_prepend_prepend(before, inv0, seq![x@], false, string_chars(s, k + 4, quote, f));
                                        lemma_exprs_view_push(constants@, x);
                                        assert(before.push(x@) =~= before + seq![x@]);
                                    }
                                    constants.push(x);
                                },
                                Err(_) => {
                                    proof {
                                        lemma_prepend_prepend(before, inv0, Seq::empty(), true, string_chars(s, k + 4, quote, f));
                                        assert(before + Seq::<ExprModel>::empty() =~= before);
                                    }
                                    invalid = true;
                                },
                            }
                            k = k + 4;
                        } else {
                            proof {
                                lemma_prepend_prepend(before, inv0, Seq::empty(), true, string_chars(s, k + 2, quote, f));
                                assert(before + Seq::<ExprModel>::empty() =~= before);
                            }
                            invalid = true;
                            k = k + 2;
                        }
                    },
                }
            } else {
                let x = Expression::Constant(first_byte(c), src.span(k, k + 1, self.file_id));
                proof {
                    lemma_prepend_prepend(before, inv0, seq![x@], false, string_chars(s, k + 1, quote, f));
                    lemma_exprs_view_push(constants@, x);
                    assert(before.push(x@) =~= before + seq![x@]);
                }
                constants.push(x);
                k = k + 1;
            }
        }
        if k >= n {
            return Err(self.error("the end of the string", k));
        }
        proof {
            assert(exprs_view(constants@) + Seq::<ExprModel>::empty() =~= exprs_view(constants@));
        }
        Ok(Parsed {
            value: Expression::Quotation(constants, src.span(pos, k + 1, self.file_id)),
            end: k + 1,
            invalid,
        })
    }

    /// A word: a number, a hexadecimal number, or a call `name` or `module.name`.
    fn parse_word(&self, pos: usize, end: usize) -> (r: Parsed<Expression>)
        requires
            self.src.wf(),
            pos < end <= self.src.chars@.len(),
        ensures
            r.end == end,
            (r.value@, r.invalid) == word_s(self.src.chars@, pos as int, end as int, self.file_id),
    {
        let span = self.src.span(pos, end, self.file_id);
        match number_of_word(self.src, pos, end) {
            Some(Ok(b)) => Parsed { value: Expression::Constant(b, span), end, invalid: false },
            Some(Err(_)) => Parsed { value: Expression::Constant(0, span), end, invalid: true },
            None => {
                let (module, name) = split_word(self.src, pos, end);
                Parsed { value: Expression::Function(module, name, span), end, invalid: false }
            },
        }
    }

    /// The first position from `from` on that holds `c`, or the end of the text.
    fn find(&self, from: usize, c: char) -> (r: usize)
        requires
            from <= self.src.chars@.len(),
        ensures
            r == find_char(self.src.chars@, from as int, c),
            from <= r <= self.src.chars@.len(),
    {
        proof {
            lemma_find_char(self.src.chars@, from as int, c);
        }
        let n = self.src.chars.len();
        let mut e = from;
        while e < n && self.src.chars[e] != c
            invariant
                from <= e <= n,
                n == self.src.chars@.len(),
                find_char(self.src.chars@, e as int, c) == find_char(self.src.chars@, from as int, c),
            decreases n - e,
        {
            e = e + 1;
        }
        e
    }

    /// The factor that starts at `k`.
    fn parse_factor(&self, k: usize) -> (r: Result<Parsed<Expression>, ParseError>)
        requires
            self.src.wf(),
            k < self.src.chars@.len(),
        ensures
            r is Ok <==> factor_s(self.src.chars@, k as int, self.file_id) is Some,
            r matches Ok(p) ==> factor_s(self.src.chars@, k as int, self.file_id) == Some(
                (p.value@, p.end as int, p.invalid),
            ),
            r matches Ok(p) ==> k < p.end <= self.src.chars@.len(),
        decreases self.src.chars@.len() - k, 0int,
    {
        let src = self.src;
        let n = src.chars.len();
        let c = src.chars[k];
        if c == '[' {
            let inner = self.parse_term(k + 1, true)?;
            Ok(Parsed {
                value: Expression::Quotation(inner.value, src.span(k, inner.end, self.file_id)),
                end: inner.end,
                invalid: inner.invalid,
            })
        } else if c == '`' {
            let e = self.find(k + 1, '`');
            if e >= n {
                return Err(self.error("the end of the Brainfuck block", e));
            }
            Ok(Parsed {
                value: Expression::Brainfuck(text(src, k + 1, e), src.span(k, e + 1, self.file_id)),
                end: e + 1,
                invalid: false,
            })
        } else if c == '"' || c == '\'' {
            proof {
                lemma_string_chars_end(src.chars@, k + 1, c, self.file_id);
            }
            self.parse_string(k, c)
        } else if c == '{' {
            let e = self.find(k + 1, '}');
            if e >= n {
                return Err(self.error("the end of the macro input", e));
            }
            let w = skip_blank(src, e + 1);
            let we = word_end(src, w);
            if we == w {
                return Err(self.error("a macro name", w));
            }
            Ok(Parsed {
                value: Expression::Macro(text(src, k + 1, e), text(src, w, we), src.span(k, we, self.file_id)),
                end: we,
                invalid: false,
            })
        } else {
            let we = word_end(src, k);
            if we == k {
                return Err(self.error("an expression", k));
            }
            Ok(self.parse_word(k, we))
        }
    }

    /// A term: factors up to `;` (when `nested` is false) or up to `]` (when it is
    /// true, and then the `]` is consumed).
    fn parse_term(&self, pos: usize, nested: bool) -> (r: Result<Parsed<Vec<Expression>>, ParseError>)
        requires
            self.src.wf(),
            pos <= self.src.chars@.len(),
        ensures
            r is Ok <==> term_s(self.src.chars@, pos as int, nested, self.file_id) is Some,
            r matches Ok(p) ==> term_s(self.src.chars@, pos as int, nested, self.file_id) == Some(
                (exprs_view(p.value@), p.end as int, p.invalid),
            ),
            r matches Ok(p) ==> pos <= p.end <= self.src.chars@.len(),
            r matches Ok(p) ==> (!nested ==> p.end < self.src.chars@.len()),
        decreases self.src.chars@.len() - pos, 1int,
    {
        let src = self.src;
        let ghost s = src.chars@;
        let ghost f = self.file_id;
        let n = src.chars.len();
        let mut body: Vec<Expression> = Vec::new();
        let mut invalid = false;
        let mut k = skip_blank(src, pos);
        proof {
            lemma_term_skip(s, pos as int, nested, f);
            lemma_skip_blank(s, pos as int);
            assert(exprs_view(body@) =~= Seq::<ExprModel>::empty());
            assert(Seq::<ExprModel>::empty() + Seq::<ExprModel>::empty() =~= Seq::<ExprModel>::empty());
            assert(prepend(Seq::<ExprModel>::empty(), false, term_s(s, k as int, nested, f)) == term_s(s, k as int, nested, f)) by {
                if let Some((ys, e, i)) = term_s(s, k as int, nested, f) {
                    assert(Seq::<ExprModel>::empty() + ys =~= ys);
                }
            }
        }
        while k < n && src.chars[k] != ';' && src.chars[k] != ']'
            invariant
                pos <= k <= n,
                n == src.chars@.len(),
                s == src.chars@,
                f == self.file_id,
                src == self.src,
                self.src.wf(),
                skip_blank_s(s, k as int) == k,
                term_s(s, pos as int, nested, f) == prepend(exprs_view(body@), invalid, term_s(s, k as int, nested, f)),
            decreases n - k,
        {
            let ghost before = exprs_view(body@);
            let ghost inv0 = invalid;
            let factor = self.parse_factor(k)?;
            let e = factor.end;
            proof {
                lemma_prepend_prepend(before, inv0, seq![factor.value@], factor.invalid, term_s(s, e as int, nested, f));
                lemma_exprs_view_push(body@, factor.value);
                assert(before.push(factor.value@) =~= before + seq![factor.value@]);
                lemma_term_skip(s, e as int, nested, f);
                lemma_skip_blank(s, e as int);
            }
            body.push(factor.value);
            if factor.invalid {
                invalid = true;
            }
            k = skip_blank(src, e);
        }
        proof {
            assert(exprs_view(body@) + Seq::<ExprModel>::empty() =~= exprs_view(body@));
        }
        if nested {
            if k >= n || src.chars[k] != ']' {
                return Err(self.error("`]`", k));
            }
            Ok(Parsed { value: body, end: k + 1, invalid })
        } else {
            if k >= n || src.chars[k] != ';' {
                return Err(self.error("`;`", k));
            }
            Ok(Parsed { value: body, end: k, invalid })
        }
    }

    /// A stack pattern on the `(` at `pos`. The entries are listed from the top of
    /// the stack down (the reverse of the text); a letter is numbered with the
    /// position of its first appearance from the top.
    fn parse_stack(&self, pos: usize) -> (r: Result<Parsed<StackArgs>, ParseError>)
        requires
            self.src.wf(),
            pos < self.src.chars@.len(),
        ensures
            r is Ok <==> stack_s(self.src.chars@, pos as int, self.file_id) is Some,
            r matches Ok(p) ==> stack_s(self.src.chars@, pos as int, self.file_id) == Some(
                (p.value.args@, p.value.span@, p.end as int, p.invalid),
            ),
            r matches Ok(p) ==> pos < p.end <= self.src.chars@.len(),
    {
        let src = self.src;
        let ghost s = src.chars@;
        let n = src.chars.len();
        let mut entries: Vec<StackArg> = Vec::new();
        let mut invalid = false;
        let mut k = skip_blank(src, pos + 1);
        proof {
            lemma_stack_entries_skip(s, pos + 1);
            assert(prepend(entries@, false, stack_entries_s(s, k as int)) == stack_entries_s(s, k as int)) by {
                if let Some((ys, e, i)) = stack_entries_s(s, k as int) {
                    assert(entries@ + ys =~= ys);
                }
            }
        }
        while k < n && src.chars[k] != ')'
            invariant
                pos < k <= n,
                n == src.chars@.len(),
                s == src.chars@,
                src == self.src,
                self.src.wf(),
                skip_blank_s(s, k as int) == k,
                stack_entries_s(s, pos + 1) == prepend(entries@, invalid, stack_entries_s(s, k as int)),
            decreases n - k,
        {
            let ghost before = entries@;
            let ghost inv0 = invalid;
            let we = word_end(src, k);
            if we == k {
                return Err(self.error("a stack entry", k));
            }
            let c = src.chars[k];
            let entry: StackArg;
            let mut bad = false;
            if we == k + 1 && 'a' <= c && c <= 'z' {
                entry = StackArg::Position(c, 0);
            } else if we == k + 1 && 'A' <= c && c <= 'Z' {
                entry = StackArg::Qoutation(c, 0);
            } else if we == k + 1 && c == '@' {
                entry = StackArg::IgnoredConstant;
            } else if we == k + 1 && (c == '?' || c == '_') {
                entry = StackArg::IgnoredQoutation;
            } else {
                match byte_value(src, k, we, 10) {
                    Ok(b) => {
                        entry = StackArg::Byte(b);
                    },
                    Err(true) => {
                        bad = true;
                        entry = StackArg::Byte(0);
                    },
                    Err(false) => {
                        return Err(self.error("a stack entry", k));
                    },
                }
            }
            assert(stack_entry_s(s, k as int, we as int) == Some((entry, bad)));
            proof {
                lemma_prepend_prepend(before, inv0, seq![entry], bad, stack_entries_s(s, we as int));
                assert(before.push(entry) =~= before + seq![entry]);
                lemma_stack_entries_skip(s, we as int);
                lemma_skip_blank(s, we as int);
            }
            entries.push(entry);
            if bad {
                invalid = true;
            }
            k = skip_blank(src, we);
        }
        if k >= n {
            return Err(self.error("`)`", k));
        }
        proof {
            assert(entries@ + Seq::<StackArg>::empty() =~= entries@);
        }
        let ghost rev = entries@.reverse();
        // Number the letters from the top of the stack
        let mut args: Vec<StackArg> = Vec::new();
        let mut seen: Vec<(char, u8)> = Vec::new();
        let mut count: u8 = 0;
        let mut i = entries.len();
        proof {
            assert(rev.take(0) =~= Seq::<StackArg>::empty());
            assert(args@ =~= numbered(rev.take(0)));
        }
        while i > 0
            invariant
                i <= entries@.len(),
                self.src.wf(),
                pos < self.src.chars@.len(),
                s == self.src.chars@,
                stack_entries_s(s, pos + 1) == Some((entries@, k as int, invalid)),
                rev == entries@.reverse(),
                rev.len() == entries@.len(),
                args@ == numbered(rev.take(entries@.len() - i)),
                count == letters_in(rev.take(entries@.len() - i)),
                forall|x: int| 0 <= x < seen@.len() ==> letter_number(rev.take(entries@.len() - i), (#[trigger] seen@[x]).0)
                    == Some(seen@[x].1 as nat),
                forall|c: char| (#[trigger] letter_number(rev.take(entries@.len() - i), c)) is Some ==> exists|x: int|
                    0 <= x < seen@.len() && (#[trigger] seen@[x]).0 == c,
            decreases i,
        {
            let ghost j = entries@.len() - i;
            let ghost pre = rev.take(j);
            i = i - 1;
            let entry = entries[i];
            let ghost post = rev.take(j + 1);
            proof {
                assert(rev[j] == entries@[i as int]);
                assert(post =~= pre.push(entry));
                assert(post.drop_last() =~= pre);
                assert(post.last() == entry);
            }
            match entry {
                StackArg::Position(c, _) | StackArg::Qoutation(c, _) => {
                    let ghost seen0 = seen@;
                    let mut found: Option<u8> = None;
                    let mut x: usize = 0;
                    while x < seen.len()
                        invariant
                            x <= seen@.len(),
                            seen@ == seen0,
                            found is None ==> forall|y: int| 0 <= y < x ==> (#[trigger] seen@[y]).0 != c,
                            found matches Some(p) ==> exists|y: int|
                                0 <= y < x && (#[trigger] seen@[y]).0 == c && seen@[y].1 == p,
                        decreases seen@.len() - x,
                    {
                        if seen[x].0 == c && found.is_none() {
                            found = Some(seen[x].1);
                        }
                        x = x + 1;
                    }
                    proof {
                        if letter_number(pre, c) is Some {
                            let y = choose|y: int| 0 <= y < seen@.len() && (#[trigger] seen@[y]).0 == c;
                            assert(seen@[y].0 == c);
                        }
                    }
                    let position = match found {
                        Some(p) => p,
                        None => {
                            proof {
                                assert(letter_number(pre, c) is None);
                            }
                            seen.push((c, count));
                            count
                        },
                    };
                    if count == 255 {
                        proof {
                            lemma_letters_in_prefix(rev, j + 1);
                            assert(letters_in(post) == count + 1);
                        }
                        return Err(self.error("a shorter stack pattern", pos));
                    }
                    count = count + 1;
                    match entry {
                        StackArg::Position(..) => args.push(StackArg::Position(c, position)),
                        _ => args.push(StackArg::Qoutation(c, position)),
                    }
                    proof {
                        assert(letter_number(post, c) == Some(position as nat));
                        assert forall|y: int| 0 <= y < seen@.len() implies letter_number(post, (#[trigger] seen@[y]).0)
                            == Some(seen@[y].1 as nat) by {
                            if found is Some || y < seen@.len() - 1 {
                                assert(letter_number(pre, seen@[y].0) is Some);
                            }
                        }
                        assert forall|d: char| (#[trigger] letter_number(post, d)) is Some implies exists|y: int|
                            0 <= y < seen@.len() && (#[trigger] seen@[y]).0 == d by {
                            if letter_number(pre, d) is Some {
                                let y = choose|y: int| 0 <= y < seen0.len() && (#[trigger] seen0[y]).0 == d;
                                assert(seen@[y] == seen0[y]);
                                assert(seen@[y].0 == d);
                            } else {
                                assert(d == c);
                                if found is None {
                                    assert(seen@[seen@.len() - 1].0 == c);
                                } else {
                                    let y = choose|y: int| 0 <= y < seen@.len() && (#[trigger] seen@[y]).0 == c;
                                    assert(seen@[y].0 == c);
                                }
                            }
                        }
                        assert(args@ =~= numbered(post));
                    }
                },
                _ => {
                    args.push(entry);
                    proof {
                        assert forall|d: char| #[trigger] letter_number(post, d) == letter_number(pre, d) by {}
                        assert(args@ =~= numbered(post));
                    }
                },
            }
        }
        proof {
            assert(rev.take(rev.len() as int) =~= rev);
        }
        Ok(Parsed {
            value: StackArgs { args, span: src.span(pos, k + 1, self.file_id) },
            end: k + 1,
            invalid,
        })
    }

    /// A definition starting at `pos`, with the id `id`, and the position after it.
    /// The definition is refused when its name is reserved (the error is at the
    /// name) or a number in it does not fit in a byte (the error is at the
    /// definition); the position after it is given all the same, so that the
    /// module goes on with the next one.
    fn parse_definition(&self, pos: usize, id: usize) -> (r: Result<Parsed<Result<Definition, ParseError>>, ParseError>)
        requires
            self.src.wf(),
            pos < self.src.chars@.len(),
        ensures
            r is Ok <==> definition_s(self.src.chars@, pos as int, id, self.file_id) is Some,
            r matches Ok(p) ==> definition_s(self.src.chars@, pos as int, id, self.file_id) == Some(
                (
                    match p.value {
                        Ok(d) => Some(d@),
                        Err(_) => None,
                    },
                    p.end as int,
                ),
            ),
            r matches Ok(p) ==> pos < p.end <= self.src.chars@.len(),
            r matches Ok(p) ==> (reserved_name(
                self.src.chars@.subrange(pos as int, word_end_s(self.src.chars@, pos as int)),
            ) ==> match p.value {
                Err(e) => e.expected@ == reserved_message() && e.span@ == char_span(
                    self.src.chars@,
                    pos as int,
                    pos + 1,
                    self.file_id,
                ),
                Ok(_) => false,
            }),
            r matches Ok(p) ==> match p.value {
                Err(e) => (e.expected@, e.span@) == refusal_s(self.src.chars@, pos as int, p.end as int, self.file_id),
                Ok(_) => true,
            },
    {
        let src = self.src;
        let ghost s = src.chars@;
        let n = src.chars.len();
        let we = word_end(src, pos);
        if we == pos {
            return Err(self.error("a definition name", pos));
        }
        let name = text(src, pos, we);
        // names [a-zA-Z] are reserved
        let c = src.chars[pos];
        let reserved = we == pos + 1 && (('a' <= c && c <= 'z') || ('A' <= c && c <= 'Z'));
        assert(reserved == reserved_name(name@));
        let mut invalid = reserved;
        let mut k = skip_blank(src, we);
        let mut stack: Option<StackArgs> = None;
        if k < n && src.chars[k] == '(' {
            let parsed = self.parse_stack(k)?;
            if parsed.invalid {
                invalid = true;
            }
            stack = Some(parsed.value);
            k = skip_blank(src, parsed.end);
        }
        if !(n - k >= 2 && src.chars[k] == '=' && src.chars[k + 1] == '=') {
            return Err(self.error("`==`, `==!` or `==?`", k));
        }
        k = k + 2;
        let ghost k2 = k - 2;
        let typ = if k < n && src.chars[k] == '!' {
            k = k + 1;
            DefinitionType::ConstantComposition
        } else if k < n && src.chars[k] == '?' {
            k = k + 1;
            DefinitionType::Composition
        } else {
            match &stack {
                Some(s) => if s.args.len() == 0 {
                    DefinitionType::Function
                } else {
                    DefinitionType::InlineComposition
                },
                None => DefinitionType::Function,
            }
        };
        assert(def_type_s(s, k2 + 2, stack_view(stack)) == (typ, k as int));
        let term = self.parse_term(k, false)?;
        let end = term.end + 1;
        if reserved {
            let error = ParseError {
                expected: String::from_str(
                    "Single character names matching 'a'..'z' and 'A'..'Z' are reserved",
                ),
                span: src.span(pos, pos + 1, self.file_id),
            };
            return Ok(Parsed { value: Err(error), end, invalid: true });
        }
        if invalid || term.invalid {
            let error = ParseError {
                expected: String::from_str("numbers that fit in a byte"),
                span: src.span(pos, end, self.file_id),
            };
            return Ok(Parsed { value: Err(error), end, invalid: true });
        }
        let def = Definition {
            typ,
            name,
            stack,
            body: term.value,
            span: src.span(pos, end, self.file_id),
            unique_id: id,
        };
        Ok(Parsed { value: Ok(def), end, invalid: false })
    }
}

/// Adds a definition to the group of its name, or to a new group after the others.
fn add_definition(groups: &mut Vec<DefinitionGroup>, def: Definition)
    ensures
        groups_view(final(groups)@) == add_to_groups(groups_view(old(groups)@), def@),
{
    let ghost gv = groups_view(groups@);
    let ghost dv = def@;
    let mut k: usize = 0;
    while k < groups.len()
        invariant
            k <= groups@.len(),
            gv == groups_view(groups@),
            gv == groups_view(old(groups)@),
            forall|j: int| 0 <= j < k ==> (#[trigger] gv[j]).0 != dv.name,
            dv == def@,
        decreases groups@.len() - k,
    {
        if groups[k].name == def.name {
            proof {
                lemma_group_index(gv, dv.name, k as int);
            }
            let mut group = groups.remove(k);
            let ghost old_defs = group.defs@;
            group.defs.push(def);
            proof {
                assert(defs_view(group.defs@) =~= defs_view(old_defs).push(dv));
            }
            groups.insert(k, group);
            proof {
                assert(groups_view(groups@) =~= gv.update(k as int, (gv[k as int].0, gv[k as int].1.push(dv))));
            }
            return;
        }
        k = k + 1;
    }
    proof {
        lemma_group_index(gv, dv.name, k as int);
    }
    let name = def.name.clone();
    let mut defs: Vec<Definition> = Vec::new();
    defs.push(def);
    proof {
        assert(defs_view(defs@) =~= seq![dv]);
    }
    groups.push(DefinitionGroup { name, defs });
    proof {
        assert(groups_view(groups@) =~= gv.push((dv.name, seq![dv])));
    }
}

/// The messages and spans of a list of errors.
pub open spec fn refusals_view(v: Seq<ParseError>) -> Seq<(Seq<char>, SpanModel)> {
    v.map_values(|e: ParseError| (e.expected@, e.span@))
}

/// Parses the module `name` from its text. Definitions get ids from `first_id`
/// on; the id after the last one is returned with the module. A definition with a
/// reserved name (a single letter) or with a number that does not fit in a byte
/// is left out of the module, and its error is returned beside it, in order.

pub fn parse_module(name: &str, input: &str, file_id: usize, first_id: usize) -> (r: Result<
    (ModuleAst, usize, Vec<ParseError>),
    ParseError,
>)
    ensures
        r is Ok <==> text_fits(input@) && module_s(input@, file_id, first_id) is Some,
        r matches Ok((m, next, left)) ==> refusals_view(left@) == module_refused_s(input@, file_id, first_id),
        r matches Ok((m, next, left)) ==> {
            &&& m.name@ == name@
            &&& first_id <= next
            &&& module_s(input@, file_id, first_id) matches Some((ms, ds, n)) && imports_view(m.imports@)
                == ms && groups_view(m.definitions@) == groups_of(ds) && next == n
            &&& groups_shape_ok(groups_view(m.definitions@))
        },
{
    let src = match Source::new(input) {
        Some(s) => s,
        None => {
            return Err(ParseError { expected: String::from_str("a shorter text"), span: Span::new(0, 0, file_id) });
        },
    };
    let ghost s = src.chars@;
    let cursor = Cursor { src: &src, file_id };
    let n = src.chars.len();
    let mut imports: Vec<(String, Span)> = Vec::new();
    let mut k = skip_blank(&src, 0);
    let ghost k0 = k;
    let we = word_end(&src, k);
    let first = text(&src, k, we);
    let keyword = String::from_str("IMPORT");
    proof {
        reveal_strlit("IMPORT");
        assert(keyword@ =~= seq!['I', 'M', 'P', 'O', 'R', 'T']);
        lemma_skip_blank(s, 0);
    }
    let is_import = first == keyword;
    let ghost mut semi: int = 0;
    if is_import {
        k = skip_blank(&src, we);
        proof {
            lemma_lists_skip(s, we as int, first_id, file_id);
            lemma_skip_blank(s, we as int);
            assert(prepend_list(imports_view(imports@), imports_s(s, k as int, file_id)) == imports_s(s, k as int, file_id)) by {
                if let Some((ys, e)) = imports_s(s, k as int, file_id) {
                    assert(imports_view(imports@) + ys =~= ys);
                }
            }
        }
        while k < n && src.chars[k] != ';'
            invariant
                k <= n,
                n == src.chars@.len(),
                s == src.chars@,
                src.wf(),
                cursor.src == &src,
                cursor.file_id == file_id,
                skip_blank_s(s, k as int) == k,
                s == input@,
                k0 == skip_blank_s(s, 0),
                we == word_end_s(s, k0 as int),
                s.subrange(k0 as int, we as int) == seq!['I', 'M', 'P', 'O', 'R', 'T'],
                imports_s(s, we as int, file_id) == prepend_list(imports_view(imports@), imports_s(s, k as int, file_id)),
            decreases n - k,
        {
            let e = word_end(&src, k);
            if e == k {
                return Err(cursor.error("a module name", k));
            }
            let item = (text(&src, k, e), src.span(k, e, file_id));
            proof {
                let before = imports_view(imports@);
                let x = (item.0@, item.1@);
                assert(imports_view(imports@.push(item)) =~= before + seq![x]);
                if let Some((ys, m)) = imports_s(s, e as int, file_id) {
                    assert(before + (seq![x] + ys) =~= (before + seq![x]) + ys);
                }
                lemma_lists_skip(s, e as int, first_id, file_id);
                lemma_skip_blank(s, e as int);
            }
            imports.push(item);
            k = skip_blank(&src, e);
        }
        if k >= n {
            return Err(cursor.error("`;`", k));
        }
        proof {
            assert(imports_view(imports@) + Seq::<(Seq<char>, SpanModel)>::empty() =~= imports_view(imports@));
            semi = k as int;
            assert(imports_s(s, we as int, file_id) == Some((imports_view(imports@), semi)));
        }
        k = skip_blank(&src, k + 1);
    }
    proof {
        lemma_skip_blank(s, k as int);
        if !is_import {
            assert(imports_view(imports@) =~= Seq::<(Seq<char>, SpanModel)>::empty());
        }
    }
    let ghost k1 = k;
    assert(module_s(s, file_id, first_id) == match definitions_s(s, k1 as int, first_id, file_id) {
        Some((ds, m)) => Some((imports_view(imports@), ds, m)),
        None => None,
    });
    assert(module_refused_s(s, file_id, first_id) == refused_s(s, k1 as int, first_id, file_id));
    let mut left: Vec<ParseError> = Vec::new();
    proof {
        assert(refusals_view(left@) + refused_s(s, k as int, first_id, file_id) =~= refused_s(s, k as int, first_id, file_id));
    }
    let mut definitions: Vec<DefinitionGroup> = Vec::new();
    let mut next_id = first_id;
    let ghost mut seen: Seq<DefModel> = Seq::empty();
    proof {
        assert(groups_view(definitions@) =~= groups_of(seen));
        assert(prepend_defs(seen, definitions_s(s, k as int, next_id, file_id)) == definitions_s(s, k as int, next_id, file_id)) by {
            if let Some((ys, e)) = definitions_s(s, k as int, next_id, file_id) {
                assert(seen + ys =~= ys);
            }
        }
    }
    while k < n
        invariant
            k <= n,
            n == src.chars@.len(),
            s == src.chars@,
            src.wf(),
            cursor.src == &src,
            cursor.file_id == file_id,
            first_id <= next_id,
            skip_blank_s(s, k as int) == k,
            s == input@,
            module_s(s, file_id, first_id) == match definitions_s(s, k1 as int, first_id, file_id) {
                Some((ds, m)) => Some((imports_view(imports@), ds, m)),
                None => None,
            },
            definitions_s(s, k1 as int, first_id, file_id) == prepend_defs(seen, definitions_s(s, k as int, next_id, file_id)),
            groups_view(definitions@) == groups_of(seen),
            module_refused_s(s, file_id, first_id) == refused_s(s, k1 as int, first_id, file_id),
            refused_s(s, k1 as int, first_id, file_id) == refusals_view(left@) + refused_s(s, k as int, next_id, file_id),
        decreases n - k,
    {
        let parsed = cursor.parse_definition(k, next_id)?;
        let e = parsed.end;
        proof {
            lemma_lists_skip(s, e as int, next_id, file_id);
            if next_id < usize::MAX {
                lemma_lists_skip(s, e as int, (next_id + 1) as usize, file_id);
            }
            lemma_skip_blank(s, e as int);
        }
        match parsed.value {
            Ok(def) => {
                let ghost dv = def@;
                add_definition(&mut definitions, def);
                if next_id == usize::MAX {
                    return Err(cursor.error("fewer definitions", k));
                }
                proof {
                    let rest = definitions_s(s, e as int, (next_id + 1) as usize, file_id);
                    if let Some((ys, m)) = rest {
                        assert(seen + (seq![dv] + ys) =~= seen.push(dv) + ys);
                    }
                    assert(seen.push(dv).drop_last() =~= seen);
                }
                next_id = next_id + 1;
                proof {
                    seen = seen.push(dv);
                }
            },
            Err(err) => {
                proof {
                    let rest = refused_s(s, e as int, next_id, file_id);
                    assert(refusals_view(left@.push(err)) =~= refusals_view(left@).push((err.expected@, err.span@)));
                    assert(refusals_view(left@) + (seq![(err.expected@, err.span@)] + rest) =~= refusals_view(
                        left@,
                    ).push((err.expected@, err.span@)) + rest);
                }
                left.push(err);
            },
        }
        k = skip_blank(&src, e);
    }
    proof {
        assert(seen + Seq::<DefModel>::empty() =~= seen);
        assert(refusals_view(left@) + Seq::<(Seq<char>, SpanModel)>::empty() =~= refusals_view(left@));
        lemma_module_shape(s, file_id, first_id);
    }
    Ok((ModuleAst { name: String::from_str(name), imports, definitions }, next_id, left))
}

/// The number the word from `pos` to `end` writes, if it is a number.
fn number_of_word(src: &Source, pos: usize, end: usize) -> (r: Option<Result<u8, bool>>)
    requires
        pos < end <= src.chars@.len(),
    ensures
        r == word_number(src.chars@.subrange(pos as int, end as int)),
{
    let ghost w = src.chars@.subrange(pos as int, end as int);
    let c = src.chars[pos];
    if '0' <= c && c <= '9' {
        if c == '0' && end - pos > 2 && src.chars[pos + 1] == 'x' {
            let hex = byte_value(src, pos + 2, end, 16);
            assert(w.subrange(2, w.len() as int) =~= src.chars@.subrange(pos + 2, end as int));
            match hex {
                Err(false) => None,
                r => Some(r),
            }
        } else {
            match byte_value(src, pos, end, 10) {
                Err(false) => None,
                r => Some(r),
            }
        }
    } else {
        None
    }
}

/// The module and the name of the call the word from `pos` to `end` writes.
fn split_word(src: &Source, pos: usize, end: usize) -> (r: (String, String))
    requires
        pos < end <= src.chars@.len(),
    ensures
        ({
            let w = src.chars@.subrange(pos as int, end as int);
            let d = first_dot(w);
            if d < w.len() {
                r.0@ == w.subrange(0, d) && r.1@ == w.subrange(d + 1, w.len() as int)
            } else {
                r.0@ == Seq::<char>::empty() && r.1@ == w
            }
        }),
{
    let ghost w = src.chars@.subrange(pos as int, end as int);
    let mut dot = pos;
    while dot < end && src.chars[dot] != '.'
        invariant
            pos <= dot <= end,
            end <= src.chars@.len(),
            w == src.chars@.subrange(pos as int, end as int),
            forall|j: int| 0 <= j < dot - pos ==> w[j] != '.',
        decreases end - dot,
    {
        dot = dot + 1;
    }
    proof {
        if dot < end {
            assert(w[dot - pos] == '.');
            let d = first_dot(w);
            assert(d == dot - pos) by {
                if d < dot - pos {
                    assert(w[d] == '.');
                }
                if d > dot - pos {
                    assert(w[dot - pos] != '.');
                }
            }
        } else {
            assert(!(exists|i: int| 0 <= i < w.len() && w[i] == '.'));
        }
    }
    if dot < end {
        let module = text(src, pos, dot);
        let name = text(src, dot + 1, end);
        assert(module@ =~= w.subrange(0, dot - pos));
        assert(name@ =~= w.subrange(dot - pos + 1, w.len() as int));
        (module, name)
    } else {
        let name = text(src, pos, end);
        assert(name@ =~= w);
        (String::new(), name)
    }
}

} // verus!
