//! Writing expressions, stack patterns and definitions back as source text.
use vstd::prelude::*;

use crate::compiler::ast::exprs_view;
use crate::compiler::ast::lemma_exprs_view_index;
use crate::compiler::ast::lemma_exprs_view_len;
use crate::compiler::ast::lemma_quotation_decreases;
use crate::compiler::ast::Definition;
use crate::compiler::ast::DefinitionType;
use crate::compiler::ast::ExprModel;
use crate::compiler::ast::Expression;
use crate::compiler::ast::StackArg;
use vstd::string::StringExecFns;

verus! {

/// Appends `c` to `s` with `String::push`, which appends the given char to the end
/// of the string.
#[verifier::external_body]
pub(crate) fn push_char(s: &mut String, c: char)
    ensures
        final(s)@ == old(s)@.push(c),
{
    s.push(c);
}

/// The decimal digit of `d`, from 0 to 9.
pub open spec fn digit_char(d: int) -> char {
    (d + 48) as char
}

/// The decimal digits of a byte, without leading zeros.
pub open spec fn decimal(n: u8) -> Seq<char> {
    let v = n as int;
    if v < 10 {
        seq![digit_char(v)]
    } else if v < 100 {
        seq![digit_char(v / 10), digit_char(v % 10)]
    } else {
        seq![digit_char(v / 100), digit_char((v / 10) % 10), digit_char(v % 10)]
    }
}

fn push_digit(s: &mut String, d: u8)
    requires
        d < 10,
    ensures
        final(s)@ == old(s)@.push(digit_char(d as int)),
{
    push_char(s, (d + 48) as char);
}

/// Appends the decimal digits of `n`.
fn push_decimal(s: &mut String, n: u8)
    ensures
        final(s)@ == old(s)@ + decimal(n),
{
    let ghost start = s@;
    if n < 10 {
        push_digit(s, n);
    } else if n < 100 {
        push_digit(s, n / 10);
        push_digit(s, n % 10);
    } else {
        push_digit(s, n / 100);
        push_digit(s, (n / 10) % 10);
        push_digit(s, n % 10);
    }
    assert(s@ =~= start + decimal(n));
}

/// The decimal digits of `n`, as a string.
pub fn decimal_string(n: u8) -> (r: String)
    ensures
        r@ == decimal(n),
{
    let mut s = String::new();
    push_decimal(&mut s, n);
    assert(s@ =~= decimal(n));
    s
}

/// A stack pattern entry as it is written: named entries by their position (`a`
/// for 0, `b` for 1, and so on; `A`, `B` for quotations), then a space.
pub open spec fn arg_text(a: StackArg) -> Seq<char> {
    match a {
        StackArg::Position(_, n) => seq![(97 + n) as char, ' '],
        StackArg::Byte(n) => decimal(n) + seq![' '],
        StackArg::IgnoredConstant => seq!['@', ' '],
        StackArg::Qoutation(_, n) => seq![(65 + n) as char, ' '],
        StackArg::IgnoredQoutation => seq!['_', ' '],
    }
}

/// The entries of a pattern can be written with letters: positions fit after
/// `a` and `A` in a byte.
pub open spec fn writable(args: Seq<StackArg>) -> bool {
    forall|i: int|
        0 <= i < args.len() ==> match #[trigger] args[i] {
            StackArg::Position(_, n) => n <= 158,
            StackArg::Qoutation(_, n) => n <= 190,
            _ => true,
        }
}

/// The text of the entries of a pattern.
pub open spec fn args_text(args: Seq<StackArg>) -> Seq<char>
    decreases args.len(),
{
    if args.len() == 0 {
        Seq::empty()
    } else {
        args_text(args.drop_last()) + arg_text(args.last())
    }
}

/// A stack pattern as it is written: its entries between parentheses; a
/// backspace takes back the space after the last entry.
pub open spec fn pattern_text(args: Seq<StackArg>) -> Seq<char> {
    seq!['('] + args_text(args) + seq!['\u{8}', ')']
}

/// Writes a stack pattern.
pub fn stack_text(args: &Vec<StackArg>) -> (r: String)
    requires
        writable(args@),
    ensures
        r@ == pattern_text(args@),
{
    let mut out = String::new();
    push_char(&mut out, '(');
    let mut k: usize = 0;
    while k < args.len()
        invariant
            k <= args@.len(),
            writable(args@),
            out@ == seq!['('] + args_text(args@.subrange(0, k as int)),
        decreases args@.len() - k,
    {
        let ghost before = out@;
        match args[k] {
            StackArg::Position(_, n) => {
                assert(n <= 158) by {
                    assert(match args@[k as int] {
                        StackArg::Position(_, n) => n <= 158,
                        StackArg::Qoutation(_, n) => n <= 190,
                        _ => true,
                    });
                };
                push_char(&mut out, (97 + n) as char);
                push_char(&mut out, ' ');
            },
            StackArg::Byte(n) => {
                push_decimal(&mut out, n);
                push_char(&mut out, ' ');
            },
            StackArg::IgnoredConstant => {
                push_char(&mut out, '@');
                push_char(&mut out, ' ');
            },
            StackArg::Qoutation(_, n) => {
                assert(n <= 190) by {
                    assert(match args@[k as int] {
                        StackArg::Position(_, n) => n <= 158,
                        StackArg::Qoutation(_, n) => n <= 190,
                        _ => true,
                    });
                };
                push_char(&mut out, (65 + n) as char);
                push_char(&mut out, ' ');
            },
            StackArg::IgnoredQoutation => {
                push_char(&mut out, '_');
                push_char(&mut out, ' ');
            },
        }
        proof {
            let sub = args@.subrange(0, k + 1);
            assert(sub.drop_last() =~= args@.subrange(0, k as int));
            assert(sub.last() == args@[k as int]);
            assert(out@ =~= before + arg_text(args@[k as int]));
        }
        k = k + 1;
    }
    push_char(&mut out, '\u{8}');
    push_char(&mut out, ')');
    assert(args@.subrange(0, k as int) =~= args@);
    out
}

/// An expression as it is written: a constant in decimal, a quotation between
/// brackets with its parts separated by spaces, a Brainfuck block between
/// backticks, a call with its module, a macro with its input between braces.
pub open spec fn expr_text(e: ExprModel) -> Seq<char>
    decreases e,
{
    match e {
        ExprModel::Constant(c, _) => decimal(c),
        ExprModel::Quotation(es, _) => seq!['['] + exprs_text(es) + seq![']'],
        ExprModel::Brainfuck(b, _) => seq!['`'] + b + seq!['`'],
        ExprModel::Function(m, n, _) => if m.len() == 0 {
            n
        } else {
            m + seq!['.'] + n
        },
        ExprModel::Macro(i, m, _) => seq!['{'] + i + seq!['}', ' '] + m,
    }
}

/// The texts of expressions, separated by spaces.
pub open spec fn exprs_text(es: Seq<ExprModel>) -> Seq<char>
    decreases es,
{
    if es.len() == 0 {
        Seq::empty()
    } else if es.len() == 1 {
        expr_text(es[0])
    } else {
        exprs_text(es.drop_last()) + seq![' '] + expr_text(es.last())
    }
}

proof fn lemma_exprs_text_push(es: Seq<ExprModel>, e: ExprModel)
    ensures
        exprs_text(es.push(e)) == if es.len() == 0 {
            expr_text(e)
        } else {
            exprs_text(es) + seq![' '] + expr_text(e)
        },
{
    assert(es.push(e).drop_last() =~= es);
    if es.len() == 0 {
        assert(es.push(e)[0] == e);
    }
}

impl Expression {
    /// Writes the expression as source text.
    pub fn text(&self) -> (r: String)
        ensures
            r@ == expr_text(self@),
        decreases self,
    {
        match self {
            Expression::Constant(c, _) => {
                let mut s = String::new();
                push_decimal(&mut s, *c);
                s
            },
            Expression::Quotation(expressions, _) => {
                let mut s = String::new();
                push_char(&mut s, '[');
                let body = exprs_text_of(self, expressions);
                s.append(body.as_str());
                push_char(&mut s, ']');
                s
            },
            Expression::Brainfuck(bf, _) => {
                let mut s = String::new();
                push_char(&mut s, '`');
                s.append(bf.as_str());
                push_char(&mut s, '`');
                s
            },
            Expression::Function(module, name, _) => {
                if module.as_str().unicode_len() == 0 {
                    name.clone()
                } else {
                    let mut s = module.clone();
                    push_char(&mut s, '.');
                    s.append(name.as_str());
                    s
                }
            },
            Expression::Macro(input, method, _) => {
                let mut s = String::new();
                push_char(&mut s, '{');
                s.append(input.as_str());
                push_char(&mut s, '}');
                push_char(&mut s, ' ');
                s.append(method.as_str());
                s
            },
        }
    }
}

/// The text of the parts of the quotation `whole`, separated by spaces.
fn exprs_text_of(whole: &Expression, expressions: &Vec<Expression>) -> (r: String)
    requires
        whole matches Expression::Quotation(v, _) && v == *expressions,
    ensures
        r@ == exprs_text(exprs_view(expressions@)),
    decreases whole, 0nat,
{
    let mut s = String::new();
    proof {
        lemma_exprs_view_len(expressions@);
        lemma_quotation_decreases(*whole);
    }
    let mut k: usize = 0;
    while k < expressions.len()
        invariant
            k <= expressions@.len(),
            exprs_view(expressions@).len() == expressions@.len(),
            forall|j: int| 0 <= j < expressions@.len() ==> decreases_to!(*whole => #[trigger] expressions@[j]),
            s@ == exprs_text(exprs_view(expressions@.subrange(0, k as int))),
        decreases expressions@.len() - k,
    {
        let part = expressions[k].text();
        proof {
            lemma_exprs_view_index(expressions@, k as int);
            let pre = expressions@.subrange(0, k as int);
            let post = expressions@.subrange(0, k + 1);
            assert(post =~= pre.push(expressions@[k as int]));
            crate::compiler::ast::lemma_exprs_view_push(pre, expressions@[k as int]);
            lemma_exprs_text_push(exprs_view(pre), expressions@[k as int]@);
            lemma_exprs_view_len(pre);
        }
        if k > 0 {
            push_char(&mut s, ' ');
        }
        s.append(part.as_str());
        k = k + 1;
    }
    assert(expressions@.subrange(0, k as int) =~= expressions@);
    s
}

/// The text of the body of a definition: its expressions separated by spaces.
fn body_text(body: &Vec<Expression>) -> (r: String)
    ensures
        r@ == exprs_text(exprs_view(body@)),
{
    let mut s = String::new();
    proof {
        lemma_exprs_view_len(body@);
    }
    let mut k: usize = 0;
    while k < body.len()
        invariant
            k <= body@.len(),
            exprs_view(body@).len() == body@.len(),
            s@ == exprs_text(exprs_view(body@.subrange(0, k as int))),
        decreases body@.len() - k,
    {
        let part = body[k].text();
        proof {
            lemma_exprs_view_index(body@, k as int);
            let pre = body@.subrange(0, k as int);
            let post = body@.subrange(0, k + 1);
            assert(post =~= pre.push(body@[k as int]));
            crate::compiler::ast::lemma_exprs_view_push(pre, body@[k as int]);
            lemma_exprs_text_push(exprs_view(pre), body@[k as int]@);
            lemma_exprs_view_len(pre);
        }
        if k > 0 {
            push_char(&mut s, ' ');
        }
        s.append(part.as_str());
        k = k + 1;
    }
    assert(body@.subrange(0, k as int) =~= body@);
    s
}

/// The symbol of a definition type: `==`, `==!` or `==?`.
pub open spec fn type_symbol(t: DefinitionType) -> Seq<char> {
    match t {
        DefinitionType::ConstantComposition => seq!['=', '=', '!'],
        DefinitionType::Composition => seq!['=', '=', '?'],
        _ => seq!['=', '='],
    }
}

/// The text of a definition's pattern, or nothing.
pub open spec fn stack_as_text(d: Definition) -> Seq<char> {
    match d.stack {
        Some(s) => pattern_text(s.args@),
        None => Seq::empty(),
    }
}

/// A definition as it is written: `name == body` for a function, else
/// `name pattern symbol body`.
pub open spec fn definition_text(d: Definition) -> Seq<char> {
    match d.typ {
        DefinitionType::Function => d.name@ + seq![' ', '=', '=', ' '] + exprs_text(exprs_view(d.body@)),
        _ => d.name@ + seq![' '] + stack_as_text(d) + seq![' '] + type_symbol(d.typ) + seq![' ']
            + exprs_text(exprs_view(d.body@)),
    }
}

impl Definition {
    /// The text of the definition's pattern, or nothing when it has none.
    pub fn stack_as_str(&self) -> (r: String)
        requires
            self.stack matches Some(s) ==> writable(s.args@),
        ensures
            r@ == stack_as_text(*self),
    {
        match &self.stack {
            Some(s) => stack_text(&s.args),
            None => String::new(),
        }
    }

    /// Writes the definition as source text.
    pub fn text(&self) -> (r: String)
        requires
            self.stack matches Some(s) ==> writable(s.args@),
        ensures
            r@ == definition_text(*self),
    {
        let mut s = self.name.clone();
        match self.typ {
            DefinitionType::Function => {
                s.append(" == ");
            },
            _ => {
                push_char(&mut s, ' ');
                let stack = self.stack_as_str();
                s.append(stack.as_str());
                match self.typ {
                    DefinitionType::ConstantComposition => s.append(" ==! "),
                    DefinitionType::Composition => s.append(" ==? "),
                    _ => s.append(" == "),
                }
            },
        }
        let body = body_text(&self.body);
        s.append(body.as_str());
        proof {
            reveal_strlit(" == ");
            reveal_strlit(" ==! ");
            reveal_strlit(" ==? ");
        }
        assert(s@ =~= definition_text(*self));
        s
    }
}

} // verus!
