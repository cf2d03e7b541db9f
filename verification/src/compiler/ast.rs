//! The syntax tree of Serotonin modules: definitions, their stack patterns and
//! their bodies of expressions.
use vstd::prelude::*;

use crate::span::Span;
use crate::span::SpanModel;
use crate::stdlib::dumb_code;
use vstd::string::StringExecFns;

verus! {

/// How a definition rewrites the program.
#[derive(Debug, Clone, Copy, PartialEq, Eq, Structural)]
pub enum DefinitionType {
    /// Compiles to plain Brainfuck code: `name == body;`
    Function,
    /// A pattern-matching replacement: `swap (a b) == b a;`
    InlineComposition,
    /// Replaced by the bytes the body prints when it runs: `* (a b) ==! a b * pop;`
    ConstantComposition,
    /// Replaced by the Brainfuck code the body prints when it runs: `+ (b) ==? '+' b dupn sprint;`
    Composition,
}

/// One entry of a stack pattern.
#[derive(Debug, Clone, Copy, PartialEq, Eq, Structural)]
pub enum StackArg {
    /// A lowercase letter: a named byte, with the position where the name first appears.
    Position(char, u8),
    /// An uppercase letter: a named quotation, with the position where the name first appears.
    Qoutation(char, u8),
    /// A number: exactly that byte.
    Byte(u8),
    /// `@`: any byte.
    IgnoredConstant,
    /// `_`: any quotation.
    IgnoredQoutation,
}

/// A stack pattern; the first entry is matched against the top of the stack.
#[derive(Debug)]
pub struct StackArgs {
    pub args: Vec<StackArg>,
    pub span: Span,
}

/// The abstract value of an [`Expression`].
pub enum ExprModel {
    Constant(u8, SpanModel),
    Brainfuck(Seq<char>, SpanModel),
    Function(Seq<char>, Seq<char>, SpanModel),
    Quotation(Seq<ExprModel>, SpanModel),
    Macro(Seq<char>, Seq<char>, SpanModel),
}

/// One term of a definition body.
#[derive(Debug)]
pub enum Expression {
    /// Pushes a byte.
    Constant(u8, Span),
    /// Raw Brainfuck code.
    Brainfuck(String, Span),
    /// A call: the module (empty when not qualified) and the name.
    Function(String, String, Span),
    /// A quotation: a list of expressions compiled to a single Brainfuck block.
    Quotation(Vec<Expression>, Span),
    /// A macro call `{input} name`.
    Macro(String, String, Span),
}

/// The model of an expression.
pub open spec fn expr_view(e: Expression) -> ExprModel
    decreases e,
{
    match e {
        Expression::Constant(n, s) => ExprModel::Constant(n, s@),
        Expression::Brainfuck(b, s) => ExprModel::Brainfuck(b@, s@),
        Expression::Function(m, n, s) => ExprModel::Function(m@, n@, s@),
        Expression::Quotation(v, s) => ExprModel::Quotation(exprs_view(v@), s@),
        Expression::Macro(i, m, s) => ExprModel::Macro(i@, m@, s@),
    }
}

/// The models of a list of expressions.
pub open spec fn exprs_view(v: Seq<Expression>) -> Seq<ExprModel>
    decreases v,
{
    if v.len() == 0 {
        Seq::empty()
    } else {
        exprs_view(v.drop_last()).push(expr_view(v.last()))
    }
}

impl View for Expression {
    type V = ExprModel;

    open spec fn view(&self) -> ExprModel {
        expr_view(*self)
    }
}

pub proof fn lemma_exprs_view_len(v: Seq<Expression>)
    ensures
        exprs_view(v).len() == v.len(),
    decreases v.len(),
{
    if v.len() > 0 {
        lemma_exprs_view_len(v.drop_last());
    }
}

pub proof fn lemma_exprs_view_index(v: Seq<Expression>, i: int)
    requires
        0 <= i < v.len(),
    ensures
        exprs_view(v).len() == v.len(),
        exprs_view(v)[i] == expr_view(v[i]),
    decreases v.len(),
{
    lemma_exprs_view_len(v);
    if i < v.len() - 1 {
        lemma_exprs_view_index(v.drop_last(), i);
    }
}

/// Two lists of expressions with the same models, element by element, have the
/// same model.
pub proof fn lemma_exprs_view_ext(v: Seq<Expression>, w: Seq<Expression>)
    requires
        v.len() == w.len(),
        forall|i: int| 0 <= i < v.len() ==> expr_view(#[trigger] v[i]) == expr_view(w[i]),
    ensures
        exprs_view(v) == exprs_view(w),
    decreases v.len(),
{
    if v.len() > 0 {
        lemma_exprs_view_ext(v.drop_last(), w.drop_last());
        assert(v.last() == v[v.len() - 1]);
        assert(w.last() == w[w.len() - 1]);
    }
}

pub proof fn lemma_exprs_view_push(v: Seq<Expression>, e: Expression)
    ensures
        exprs_view(v.push(e)) == exprs_view(v).push(expr_view(e)),
{
    assert(v.push(e).drop_last() =~= v);
}

pub proof fn lemma_exprs_view_add(v: Seq<Expression>, w: Seq<Expression>)
    ensures
        exprs_view(v + w) == exprs_view(v) + exprs_view(w),
    decreases w.len(),
{
    if w.len() == 0 {
        assert(v + w =~= v);
        assert(exprs_view(v) + exprs_view(w) =~= exprs_view(v));
    } else {
        lemma_exprs_view_add(v, w.drop_last());
        assert((v + w).drop_last() =~= v + w.drop_last());
        assert((v + w).last() == w.last());
        assert(exprs_view(v) + exprs_view(w) =~= (exprs_view(v) + exprs_view(w.drop_last())).push(
            expr_view(w.last()),
        ));
    }
}

/// The span an expression model carries.
pub open spec fn model_span(e: ExprModel) -> SpanModel {
    match e {
        ExprModel::Constant(_, s) => s,
        ExprModel::Brainfuck(_, s) => s,
        ExprModel::Function(_, _, s) => s,
        ExprModel::Quotation(_, s) => s,
        ExprModel::Macro(_, _, s) => s,
    }
}

/// The expression holds neither calls nor macros, at any depth: it stands for
/// Brainfuck code directly.
pub open spec fn is_code(e: ExprModel) -> bool
    decreases e,
{
    match e {
        ExprModel::Constant(_, _) => true,
        ExprModel::Brainfuck(_, _) => true,
        ExprModel::Quotation(es, _) => all_code(es),
        _ => false,
    }
}

/// Every expression of the list is code.
pub open spec fn all_code(es: Seq<ExprModel>) -> bool
    decreases es,
{
    if es.len() == 0 {
        true
    } else {
        all_code(es.drop_last()) && is_code(es.last())
    }
}

/// The Brainfuck code an expression stands for: a constant moves to a new cell
/// and increments it; a quotation is the code of its parts, in order.
pub open spec fn expr_code(e: ExprModel) -> Seq<char>
    decreases e,
{
    match e {
        ExprModel::Constant(n, _) => dumb_code(n as nat),
        ExprModel::Brainfuck(b, _) => b,
        ExprModel::Quotation(es, _) => exprs_code(es),
        _ => Seq::empty(),
    }
}

/// The code of a list of expressions, one after the other.
pub open spec fn exprs_code(es: Seq<ExprModel>) -> Seq<char>
    decreases es,
{
    if es.len() == 0 {
        Seq::empty()
    } else {
        exprs_code(es.drop_last()) + expr_code(es.last())
    }
}

impl Expression {
    /// The span of the expression.
    pub fn span(&self) -> (r: &Span)
        ensures
            r@ == model_span(self@),
    {
        match self {
            Expression::Constant(_, span) => span,
            Expression::Quotation(_, span) => span,
            Expression::Brainfuck(_, span) => span,
            Expression::Function(_, _, span) => span,
            Expression::Macro(_, _, span) => span,
        }
    }

    /// Copies an expression.
    pub fn duplicate(&self) -> (r: Expression)
        ensures
            r@ == self@,
        decreases self,
    {
        match self {
            Expression::Constant(n, s) => Expression::Constant(*n, *s),
            Expression::Brainfuck(b, s) => Expression::Brainfuck(b.clone(), *s),
            Expression::Function(m, n, s) => Expression::Function(m.clone(), n.clone(), *s),
            Expression::Macro(i, m, s) => Expression::Macro(i.clone(), m.clone(), *s),
            Expression::Quotation(v, s) => {
                let mut w: Vec<Expression> = Vec::new();
                let mut k: usize = 0;
                proof {
                    lemma_quotation_decreases(*self);
                }
                while k < v.len()
                    invariant
                        k <= v@.len(),
                        forall|j: int| 0 <= j < v@.len() ==> decreases_to!(*self => #[trigger] v@[j]),
                        w@.len() == k,
                        forall|j: int| 0 <= j < k ==> (#[trigger] w@[j])@ == v@[j]@,
                    decreases v@.len() - k,
                {
                    let e = v[k].duplicate();
                    w.push(e);
                    k = k + 1;
                }
                proof {
                    lemma_exprs_view_ext(w@, v@);
                }
                Expression::Quotation(w, *s)
            },
        }
    }

    /// The Brainfuck code of an expression that holds no call and no macro.
    pub fn compiled(&self) -> (r: String)
        requires
            is_code(self@),
        ensures
            r@ == expr_code(self@),
        decreases self,
    {
        match self {
            Expression::Constant(n, _) => {
                let mut bf = String::from_str(">");
                proof {
                    reveal_strlit(">");
                    reveal_strlit("+");
                }
                let mut k: u8 = 0;
                while k < *n
                    invariant
                        k <= *n,
                        bf@ == dumb_code(k as nat),
                        "+"@ == seq!['+'],
                    decreases *n - k,
                {
                    bf.append("+");
                    k = k + 1;
                    assert(bf@ =~= dumb_code(k as nat));
                }
                bf
            },
            Expression::Quotation(expressions, _) => {
                let mut bf = String::new();
                let mut k: usize = 0;
                proof {
                    lemma_exprs_view_len(expressions@);
                    lemma_quotation_decreases(*self);
                }
                while k < expressions.len()
                    invariant
                        k <= expressions@.len(),
                        forall|j: int| 0 <= j < expressions@.len() ==> decreases_to!(*self => #[trigger] expressions@[j]),
                        exprs_view(expressions@).len() == expressions@.len(),
                        all_code(exprs_view(expressions@)),
                        bf@ == exprs_code(exprs_view(expressions@.subrange(0, k as int))),
                    decreases expressions@.len() - k,
                {
                    proof {
                        lemma_all_code_index(exprs_view(expressions@), k as int);
                        lemma_exprs_view_index(expressions@, k as int);
                    }
                    let part = expressions[k].compiled();
                    bf.append(part.as_str());
                    proof {
                        let sub = expressions@.subrange(0, k + 1);
                        assert(sub.drop_last() =~= expressions@.subrange(0, k as int));
                        assert(sub.last() == expressions@[k as int]);
                        lemma_exprs_view_push(expressions@.subrange(0, k as int), expressions@[k as int]);
                        assert(sub =~= expressions@.subrange(0, k as int).push(expressions@[k as int]));
                        let m = exprs_view(sub);
                        assert(m.drop_last() =~= exprs_view(expressions@.subrange(0, k as int)));
                    }
                    k = k + 1;
                }
                assert(expressions@.subrange(0, k as int) =~= expressions@);
                bf
            },
            Expression::Brainfuck(bf, _) => bf.clone(),
            Expression::Function(..) | Expression::Macro(..) => {
                proof {
                    assert(false);
                }
                String::new()
            },
        }
    }
}

/// The parts of a quotation are smaller than the quotation.
pub proof fn lemma_quotation_decreases(e: Expression)
    ensures
        e matches Expression::Quotation(v, _) ==> forall|j: int|
            0 <= j < v@.len() ==> decreases_to!(e => #[trigger] v@[j]),
{
    broadcast use vstd::std_specs::vec::axiom_vec_index_decreases;

    if let Expression::Quotation(v, _) = e {
        assert forall|j: int| 0 <= j < v@.len() implies decreases_to!(e => #[trigger] v@[j]) by {
            assert(decreases_to!(v => v[j]));
        }
    }
}

pub proof fn lemma_all_code_index(es: Seq<ExprModel>, i: int)
    requires
        all_code(es),
        0 <= i < es.len(),
    ensures
        is_code(es[i]),
    decreases es.len(),
{
    if i < es.len() - 1 {
        lemma_all_code_index(es.drop_last(), i);
    }
}

/// One rule of the program: `name stack type body;`
#[derive(Debug)]
pub struct Definition {
    pub typ: DefinitionType,
    pub name: String,
    pub stack: Option<StackArgs>,
    pub body: Vec<Expression>,
    pub span: Span,
    pub unique_id: usize,
}

/// The abstract value of a [`Definition`].
pub struct DefModel {
    pub typ: DefinitionType,
    pub name: Seq<char>,
    pub stack: Option<(Seq<StackArg>, SpanModel)>,
    pub body: Seq<ExprModel>,
    pub span: SpanModel,
    pub unique_id: usize,
}

/// A letter of a stack pattern is an ASCII character, and a plain function's
/// pattern has no letters.
pub open spec fn entry_shape_ok(typ: DefinitionType, a: StackArg) -> bool {
    match a {
        StackArg::Position(c, _) => (c as u32) < 128 && !(typ is Function),
        StackArg::Qoutation(c, _) => (c as u32) < 128 && !(typ is Function),
        _ => true,
    }
}

/// Every entry of the definition's stack pattern has its shape.
pub open spec fn def_shape_ok(d: DefModel) -> bool {
    match d.stack {
        Some((args, _)) => forall|k: int| 0 <= k < args.len() ==> #[trigger] entry_shape_ok(d.typ, args[k]),
        None => true,
    }
}

/// Every definition of the groups has its shape.
pub open spec fn groups_shape_ok(gs: Seq<(Seq<char>, Seq<DefModel>)>) -> bool {
    forall|g: int, d: int| 0 <= g < gs.len() && 0 <= d < gs[g].1.len() ==> #[trigger] def_shape_ok(gs[g].1[d])
}

/// The model of a stack pattern: its entries and its span.
pub open spec fn stack_view(stack: Option<StackArgs>) -> Option<(Seq<StackArg>, SpanModel)> {
    match stack {
        Some(st) => Some((st.args@, st.span@)),
        None => None,
    }
}

impl View for Definition {
    type V = DefModel;

    open spec fn view(&self) -> DefModel {
        DefModel {
            typ: self.typ,
            name: self.name@,
            stack: stack_view(self.stack),
            body: exprs_view(self.body@),
            span: self.span@,
            unique_id: self.unique_id,
        }
    }
}

/// The number of stack entries a definition's pattern matches.
pub open spec fn pattern_len(stack: Option<StackArgs>) -> nat {
    match stack {
        Some(s) => s.args@.len(),
        None => 0,
    }
}

impl Definition {
    /// The number of stack entries the definition's pattern matches.
    pub fn stack_size(&self) -> (r: usize)
        ensures
            r == pattern_len(self.stack),
    {
        match &self.stack {
            Some(s) => s.args.len(),
            None => 0,
        }
    }
}

/// All the definitions of one name in a module, in the order they are written.
#[derive(Debug)]
pub struct DefinitionGroup {
    pub name: String,
    pub defs: Vec<Definition>,
}

/// A parsed module: its name, the modules it imports and its definitions,
/// grouped by name.
#[derive(Debug)]
pub struct ModuleAst {
    pub name: String,
    pub imports: Vec<(String, Span)>,
    pub definitions: Vec<DefinitionGroup>,
}

/// The models of a list of definitions.
pub open spec fn defs_view(v: Seq<Definition>) -> Seq<DefModel> {
    v.map_values(|d: Definition| d@)
}

/// The model of a list of groups: each name with the models of its definitions.
pub open spec fn groups_view(g: Seq<DefinitionGroup>) -> Seq<(Seq<char>, Seq<DefModel>)> {
    g.map_values(|x: DefinitionGroup| (x.name@, defs_view(x.defs@)))
}

/// The model of an import list: each module name with its span.
pub open spec fn imports_view(v: Seq<(String, Span)>) -> Seq<(Seq<char>, SpanModel)> {
    v.map_values(|p: (String, Span)| (p.0@, p.1@))
}

/// The definitions of `name` in the group list: those of the first group with that name.
pub open spec fn group_defs(groups: Seq<DefinitionGroup>, name: Seq<char>) -> Option<Seq<Definition>>
    decreases groups.len(),
{
    if groups.len() == 0 {
        None
    } else if groups[0].name@ == name {
        Some(groups[0].defs@)
    } else {
        group_defs(groups.drop_first(), name)
    }
}

/// The definitions of `module.name`: the first module of that name, then its
/// first group of that name.
pub open spec fn lookup_defs(modules: Seq<ModuleAst>, module: Seq<char>, name: Seq<char>) -> Option<
    Seq<Definition>,
>
    decreases modules.len(),
{
    if modules.len() == 0 {
        None
    } else if modules[0].name@ == module {
        group_defs(modules[0].definitions@, name)
    } else {
        lookup_defs(modules.drop_first(), module, name)
    }
}

/// Finds the definitions of `name` among groups.
pub fn find_group<'a>(groups: &'a Vec<DefinitionGroup>, name: &String) -> (r: Option<&'a Vec<Definition>>)
    ensures
        group_defs(groups@, name@) == (match r {
            Some(v) => Some(v@),
            None => None::<Seq<Definition>>,
        }),
{
    let mut k: usize = 0;
    assert(groups@.subrange(0, groups@.len() as int) =~= groups@);
    while k < groups.len()
        invariant
            k <= groups@.len(),
            group_defs(groups@, name@) == group_defs(groups@.subrange(k as int, groups@.len() as int), name@),
        decreases groups@.len() - k,
    {
        assert(groups@.subrange(k as int, groups@.len() as int).drop_first() =~= groups@.subrange(k + 1, groups@.len() as int));
        if groups[k].name == *name {
            return Some(&groups[k].defs);
        }
        k = k + 1;
    }
    None
}

/// Finds the definitions of `module.name` among modules.
pub fn find_definitions<'a>(modules: &'a [ModuleAst], module: &String, name: &String) -> (r: Option<
    &'a Vec<Definition>,
>)
    ensures
        lookup_defs(modules@, module@, name@) == (match r {
            Some(v) => Some(v@),
            None => None::<Seq<Definition>>,
        }),
{
    let mut k: usize = 0;
    assert(modules@.subrange(0, modules@.len() as int) =~= modules@);
    while k < modules.len()
        invariant
            k <= modules@.len(),
            lookup_defs(modules@, module@, name@) == lookup_defs(modules@.subrange(k as int, modules@.len() as int), module@, name@),
        decreases modules@.len() - k,
    {
        assert(modules@.subrange(k as int, modules@.len() as int).drop_first() =~= modules@.subrange(k + 1, modules@.len() as int));
        if modules[k].name == *module {
            return find_group(&modules[k].definitions, name);
        }
        k = k + 1;
    }
    None
}

} // verus!
