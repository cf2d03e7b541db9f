//! Code generation: rewriting the body of `main` until only Brainfuck is left.
//!
//! The generator is a state machine. Most rewrites happen inside it; when a
//! composition (`==!` or `==?`) has been compiled, the generator asks its driver to
//! run that Brainfuck program and to hand back what the program printed.
use vstd::prelude::*;

use crate::compiler::ast::all_code;
use crate::compiler::ast::exprs_code;
use crate::compiler::ast::exprs_view;
use crate::compiler::ast::is_code;
use crate::compiler::ast::lemma_all_code_index;
use crate::compiler::ast::lemma_exprs_view_index;
use crate::compiler::ast::lemma_exprs_view_len;
use crate::compiler::ast::lemma_exprs_view_push;
use crate::compiler::ast::pattern_len;
use crate::compiler::ast::Definition;
use crate::compiler::ast::ExprModel;
use crate::compiler::ast::Expression;
use crate::compiler::pattern::binds_view;
use crate::compiler::pattern::lemma_match_args_len;
use crate::compiler::pattern::pattern_bindings;
use crate::compiler::pattern::pattern_match;
use crate::compiler::pattern::apply_constraints;
use crate::compiler::pattern::subst_exprs;
use crate::compiler::pattern::lemma_subst_exprs_empty;
use crate::compiler::ast::find_definitions;
use crate::compiler::ast::DefinitionType;
use crate::compiler::ast::ModuleAst;
use crate::compiler::ast::model_span;
use crate::compiler::ast::lookup_defs;
use crate::span::SpanModel;
use crate::span::Span;
use vstd::string::StringExecFns;

use crate::compiler::text::push_char;

verus! {

/// A definition can be used on a stack when it is not being built already and its
/// pattern, if it has one, matches the stack.
pub open spec fn applicable(d: Definition, builds: Seq<usize>, stack: Seq<ExprModel>) -> bool {
    &&& !builds.contains(d.unique_id)
    &&& match d.stack {
        Some(p) => pattern_bindings(stack, p.args@) is Some,
        None => true,
    }
}

/// The bindings a definition gets on a stack: those of its pattern's match, or
/// none when it has no pattern.
pub open spec fn def_bindings(d: Definition, stack: Seq<ExprModel>) -> Seq<(char, ExprModel)> {
    match d.stack {
        Some(p) => pattern_bindings(stack, p.args@)->0,
        None => Seq::empty(),
    }
}

/// Chooses the definition to use for a call: the last written definition that can
/// be used on the stack. Returns its index and its bindings.
pub fn select_definition(defs: &Vec<Definition>, builds: &Vec<usize>, stack: &[Expression]) -> (r:
    Option<(usize, Vec<(char, Expression)>)>)
    ensures
        match r {
            Some((j, b)) => {
                &&& j < defs@.len()
                &&& applicable(defs@[j as int], builds@, exprs_view(stack@))
                &&& forall|k: int|
                    j < k < defs@.len() ==> !applicable(
                        #[trigger] defs@[k],
                        builds@,
                        exprs_view(stack@),
                    )
                &&& binds_view(b@) == def_bindings(defs@[j as int], exprs_view(stack@))
            },
            None => forall|k: int|
                0 <= k < defs@.len() ==> !applicable(#[trigger] defs@[k], builds@, exprs_view(stack@)),
        },
        last_applicable(defs@, builds@, exprs_view(stack@), defs@.len() as int) == match r {
            Some((j, _)) => Some(j as int),
            None => None::<int>,
        },
{
    let mut k: usize = defs.len();
    while k > 0
        invariant
            k <= defs@.len(),
            forall|i: int|
                k <= i < defs@.len() ==> !applicable(#[trigger] defs@[i], builds@, exprs_view(stack@)),
            last_applicable(defs@, builds@, exprs_view(stack@), defs@.len() as int) == last_applicable(
                defs@,
                builds@,
                exprs_view(stack@),
                k as int,
            ),
        decreases k,
    {
        k = k - 1;
        let def = &defs[k];
        let mut building = false;
        let mut i: usize = 0;
        while i < builds.len()
            invariant
                i <= builds@.len(),
                building == (exists|j: int| 0 <= j < i && builds@[j] == def.unique_id),
            decreases builds@.len() - i,
        {
            if builds[i] == def.unique_id {
                building = true;
            }
            i = i + 1;
        }
        assert(building == builds@.contains(def.unique_id));
        if !building {
            match &def.stack {
                Some(pattern) => {
                    match pattern_match(stack, pattern) {
                        Some(c) => {
                            return Some((k, c));
                        },
                        None => {},
                    }
                },
                None => {
                    let b: Vec<(char, Expression)> = Vec::new();
                    assert(binds_view(b@) =~= Seq::<(char, ExprModel)>::empty());
                    return Some((k, b));
                },
            }
        }
    }
    None
}


/// An entry of a work list: an expression still to rewrite, or the point where a
/// definition's body ends and the definition can be used again.
#[derive(Debug)]
pub enum Work {
    Expr(Expression),
    Finish(usize),
}

/// What a frame compiles, and where its code goes when it is done.
#[derive(Debug, Clone, Copy)]
pub enum FrameKind {
    /// The body of `main` (the id of its definition): its code is the result.
    Main(usize),
    /// A quotation: its code is pushed on the stack below as a Brainfuck block.
    Quotation(Span),
    /// A `==!` definition called at the span (its id, its pattern's size): the
    /// bytes its code prints replace the matched values, as constants.
    Constants(Span, usize, usize),
    /// A `==?` definition called at the span (its id, its pattern's size): the
    /// text its code prints replaces the matched values, as a Brainfuck block.
    Code(Span, usize, usize),
}

/// A body being rewritten: what is left to do, the compile-time stack of values
/// produced so far, and the bindings of the pattern it was called with.
#[derive(Debug)]
pub struct Frame {
    pub work: Vec<Work>,
    pub stack: Vec<Expression>,
    pub bindings: Vec<(char, Expression)>,
    pub kind: FrameKind,
}

/// What the generator waits for after asking for a program to run.
#[derive(Debug, Clone, Copy)]
pub enum Awaiting {
    Nothing,
    Constants(Span),
    Code(Span),
}

/// Why a Brainfuck program could not run to its end.
#[derive(Debug, Clone, PartialEq, Eq)]
pub enum ExecutionError {
    /// The program is not well formed (its brackets do not match).
    Parse(String),
    /// The program failed while it ran (for instance it ran for too long).
    Runtime(String),
}

/// An error found while generating code.
#[derive(Debug, Clone, PartialEq, Eq)]
pub enum GenError {
    /// `main` has a stack pattern.
    MainHasPattern(Span),
    /// A call names a module or a function that the program does not define.
    UnknownFunction(String, String, Span),
    /// Every definition of the called name is being built or does not match.
    NoUnusedDefinition(String, Span),
    /// A macro other than `autoperm!`.
    InvalidMacro(String, Span),
    /// The `autoperm!` macro refused its input (with its explanation).
    MacroFailed(String, Span),
    /// A composition's program could not be run.
    ExecutionFailed(ExecutionError, Span),
}

/// What the generator does next.
#[derive(Debug)]
pub enum Step {
    /// It made progress; call `step` again.
    Continue,
    /// Run this Brainfuck program with no input and hand what it prints to `resume`.
    Execute(String),
    /// The Brainfuck code of `main`.
    Done(String),
    /// Generation failed.
    Failed(GenError),
}

/// The abstract value of a [`Work`] entry.
pub enum WorkModel {
    Expr(ExprModel),
    Finish(usize),
}

pub open spec fn work_view(w: Work) -> WorkModel {
    match w {
        Work::Expr(e) => WorkModel::Expr(e@),
        Work::Finish(id) => WorkModel::Finish(id),
    }
}

pub open spec fn works_view(v: Seq<Work>) -> Seq<WorkModel> {
    v.map_values(|w: Work| work_view(w))
}

/// The abstract value of a [`FrameKind`].
pub enum KindModel {
    Main(usize),
    Quotation(SpanModel),
    Constants(SpanModel, usize, usize),
    Code(SpanModel, usize, usize),
}

pub open spec fn kind_view(k: FrameKind) -> KindModel {
    match k {
        FrameKind::Main(id) => KindModel::Main(id),
        FrameKind::Quotation(s) => KindModel::Quotation(s@),
        FrameKind::Constants(s, id, size) => KindModel::Constants(s@, id, size),
        FrameKind::Code(s, id, size) => KindModel::Code(s@, id, size),
    }
}

/// The abstract value of a [`Frame`].
pub struct FrameModel {
    pub work: Seq<WorkModel>,
    pub stack: Seq<ExprModel>,
    pub bindings: Seq<(char, ExprModel)>,
    pub kind: KindModel,
}

pub open spec fn frame_view(f: Frame) -> FrameModel {
    FrameModel {
        work: works_view(f.work@),
        stack: exprs_view(f.stack@),
        bindings: binds_view(f.bindings@),
        kind: kind_view(f.kind),
    }
}

pub open spec fn frames_view(fs: Seq<Frame>) -> Seq<FrameModel> {
    fs.map_values(|f: Frame| frame_view(f))
}

/// The abstract value of an [`Awaiting`].
pub enum AwaitModel {
    Nothing,
    Constants(SpanModel),
    Code(SpanModel),
}

pub open spec fn await_view(a: Awaiting) -> AwaitModel {
    match a {
        Awaiting::Nothing => AwaitModel::Nothing,
        Awaiting::Constants(s) => AwaitModel::Constants(s@),
        Awaiting::Code(s) => AwaitModel::Code(s@),
    }
}

/// The abstract value of a [`Generator`]: its frames, bottom first, the
/// definitions being built, and what it waits for.
pub struct GenModel {
    pub frames: Seq<FrameModel>,
    pub builds: Seq<usize>,
    pub awaiting: AwaitModel,
}

/// The abstract value of a [`GenError`]; the explanation of a refused macro is
/// left out.
pub enum FailModel {
    MainHasPattern(SpanModel),
    UnknownFunction(Seq<char>, Seq<char>, SpanModel),
    NoUnusedDefinition(Seq<char>, SpanModel),
    InvalidMacro(Seq<char>, SpanModel),
    MacroFailed(SpanModel),
    ExecutionFailed(SpanModel),
}

pub open spec fn fail_view(e: GenError) -> FailModel {
    match e {
        GenError::MainHasPattern(s) => FailModel::MainHasPattern(s@),
        GenError::UnknownFunction(m, n, s) => FailModel::UnknownFunction(m@, n@, s@),
        GenError::NoUnusedDefinition(n, s) => FailModel::NoUnusedDefinition(n@, s@),
        GenError::InvalidMacro(m, s) => FailModel::InvalidMacro(m@, s@),
        GenError::MacroFailed(_, s) => FailModel::MacroFailed(s@),
        GenError::ExecutionFailed(_, s) => FailModel::ExecutionFailed(s@),
    }
}

/// The abstract value of a [`Step`].
pub enum StepModel {
    Continue,
    Execute(Seq<char>),
    Done(Seq<char>),
    Failed(FailModel),
}

pub open spec fn step_view(s: Step) -> StepModel {
    match s {
        Step::Continue => StepModel::Continue,
        Step::Execute(c) => StepModel::Execute(c@),
        Step::Done(c) => StepModel::Done(c@),
        Step::Failed(e) => StepModel::Failed(fail_view(e)),
    }
}

/// The frame with `e` pushed on its stack.
pub open spec fn with_value(f: FrameModel, e: ExprModel) -> FrameModel {
    FrameModel { work: f.work, stack: f.stack.push(e), bindings: f.bindings, kind: f.kind }
}

/// The frame with its top `size` values removed.
pub open spec fn without_top(f: FrameModel, size: nat) -> FrameModel {
    FrameModel {
        work: f.work,
        stack: f.stack.subrange(0, f.stack.len() - size),
        bindings: f.bindings,
        kind: f.kind,
    }
}

/// The frame with its last work entry taken.
pub open spec fn without_last_work(f: FrameModel) -> FrameModel {
    FrameModel { work: f.work.drop_last(), stack: f.stack, bindings: f.bindings, kind: f.kind }
}

/// The work that rewrites `body`: the last entry is done first, so the body is
/// rewritten in order.
pub open spec fn body_work(body: Seq<ExprModel>) -> Seq<WorkModel> {
    Seq::new(body.len(), |i: int| WorkModel::Expr(body[body.len() - 1 - i]))
}

/// The index of the last of the first `k` definitions that can be used.
pub open spec fn last_applicable(defs: Seq<Definition>, builds: Seq<usize>, stack: Seq<ExprModel>, k: int) -> Option<
    int,
>
    decreases k,
{
    if k <= 0 || k > defs.len() {
        None
    } else if applicable(defs[k - 1], builds, stack) {
        Some(k - 1)
    } else {
        last_applicable(defs, builds, stack, k - 1)
    }
}

/// The generator `g` with the frames `frames`.
pub open spec fn with_frames(g: GenModel, frames: Seq<FrameModel>) -> GenModel {
    GenModel { frames, builds: g.builds, awaiting: g.awaiting }
}

/// A call `module.name` at `span` from the frame `f`, above the frames `rest`:
/// the last definition of the name that can be used replaces the call. A function
/// adds its body to the work of `f`; an inline composition also takes the values
/// its pattern matched and has its letters bound; a `==!` or `==?` composition
/// gets a frame of its own. Its id is marked as being built until its body is
/// done.
pub open spec fn call_s(
    g: GenModel,
    rest: Seq<FrameModel>,
    f: FrameModel,
    modules: Seq<ModuleAst>,
    module: Seq<char>,
    name: Seq<char>,
    span: SpanModel,
) -> (GenModel, StepModel) {
    match lookup_defs(modules, module, name) {
        None => (with_frames(g, rest), StepModel::Failed(FailModel::UnknownFunction(module, name, span))),
        Some(defs) => match last_applicable(defs, g.builds, f.stack, defs.len() as int) {
            None => (with_frames(g, rest), StepModel::Failed(FailModel::NoUnusedDefinition(name, span))),
            Some(j) => {
                let d = defs[j];
                let id = d.unique_id;
                let size = pattern_len(d.stack);
                let bs = def_bindings(d, f.stack);
                let body = exprs_view(d.body@);
                let builds = g.builds.push(id);
                let next = match d.typ {
                    DefinitionType::Function => rest.push(
                        FrameModel {
                            work: f.work.push(WorkModel::Finish(id)) + body_work(body),
                            stack: f.stack,
                            bindings: f.bindings,
                            kind: f.kind,
                        },
                    ),
                    DefinitionType::InlineComposition => rest.push(
                        FrameModel {
                            work: f.work.push(WorkModel::Finish(id)) + body_work(subst_exprs(bs, body)),
                            stack: f.stack.subrange(0, f.stack.len() - size),
                            bindings: f.bindings,
                            kind: f.kind,
                        },
                    ),
                    DefinitionType::ConstantComposition => rest.push(f).push(
                        FrameModel {
                            work: body_work(subst_exprs(bs, body)),
                            stack: Seq::empty(),
                            bindings: bs,
                            kind: KindModel::Constants(span, id, size as usize),
                        },
                    ),
                    DefinitionType::Composition => rest.push(f).push(
                        FrameModel {
                            work: body_work(subst_exprs(bs, body)),
                            stack: Seq::empty(),
                            bindings: bs,
                            kind: KindModel::Code(span, id, size as usize),
                        },
                    ),
                };
                (GenModel { frames: next, builds, awaiting: g.awaiting }, StepModel::Continue)
            },
        },
    }
}

/// Rewriting the expression `e`, taken from the work of the frame `f`, above
/// the frames `rest`. A value goes on the stack; a quotation gets a frame of its
/// own, with the letters of `f` bound in it; a macro call `{diagram} autoperm!`
/// becomes the Brainfuck block that `autoperm` makes for the diagram. On a failure
/// the frame is dropped.
pub open spec fn rewrite_s(
    g: GenModel,
    rest: Seq<FrameModel>,
    f: FrameModel,
    e: ExprModel,
    modules: Seq<ModuleAst>,
) -> (GenModel, StepModel) {
    match e {
        ExprModel::Function(m, n, s) => call_s(g, rest, f, modules, m, n, s),
        ExprModel::Quotation(q, s) => (
            with_frames(
                g,
                rest.push(f).push(
                    FrameModel {
                        work: body_work(subst_exprs(f.bindings, q)),
                        stack: Seq::empty(),
                        bindings: f.bindings,
                        kind: KindModel::Quotation(s),
                    },
                ),
            ),
            StepModel::Continue,
        ),
        ExprModel::Macro(input, method, s) => if method != autoperm_name() {
            (with_frames(g, rest), StepModel::Failed(FailModel::InvalidMacro(method, s)))
        } else {
            match autoperm_code(input) {
                Some(code) => (
                    with_frames(g, rest.push(with_value(f, ExprModel::Brainfuck(code, s)))),
                    StepModel::Continue,
                ),
                None => (with_frames(g, rest), StepModel::Failed(FailModel::MacroFailed(s))),
            }
        },
        _ => (with_frames(g, rest.push(with_value(f, e))), StepModel::Continue),
    }
}

/// A frame `f` with no work left, above the frames `rest`: the code of its
/// stack is the result for `main`; is pushed on the frame below as a Brainfuck
/// block for a quotation; and is the program to run for a composition, whose
/// matched values are taken from the frame below.
pub open spec fn finish_s(g: GenModel, rest: Seq<FrameModel>, f: FrameModel) -> (GenModel, StepModel) {
    let code = exprs_code(f.stack);
    match f.kind {
        KindModel::Main(id) => (
            GenModel { frames: rest, builds: without(g.builds, id), awaiting: g.awaiting },
            StepModel::Done(code),
        ),
        KindModel::Quotation(s) => (
            with_frames(g, rest.drop_last().push(with_value(rest.last(), ExprModel::Brainfuck(code, s)))),
            StepModel::Continue,
        ),
        KindModel::Constants(s, id, size) => (
            GenModel {
                frames: rest.drop_last().push(without_top(rest.last(), size as nat)),
                builds: without(g.builds, id),
                awaiting: AwaitModel::Constants(s),
            },
            StepModel::Execute(code),
        ),
        KindModel::Code(s, id, size) => (
            GenModel {
                frames: rest.drop_last().push(without_top(rest.last(), size as nat)),
                builds: without(g.builds, id),
                awaiting: AwaitModel::Code(s),
            },
            StepModel::Execute(code),
        ),
    }
}

/// One step of the generator: the top frame finishes when it has no work left;
/// otherwise its last work entry is done: the end of a definition's body, or an
/// expression to rewrite.
pub open spec fn step_s(g: GenModel, modules: Seq<ModuleAst>) -> (GenModel, StepModel) {
    let top = g.frames.last();
    let rest = g.frames.drop_last();
    if top.work.len() == 0 {
        finish_s(g, rest, top)
    } else {
        let f = without_last_work(top);
        match top.work.last() {
            WorkModel::Finish(id) => (
                GenModel { frames: rest.push(f), builds: without(g.builds, id), awaiting: g.awaiting },
                StepModel::Continue,
            ),
            WorkModel::Expr(e) => rewrite_s(g, rest, f, e, modules),
        }
    }
}

/// The generator for `main`: one frame with the body of `main` as its work, and
/// `main` being built.
pub open spec fn initial_model(main: Definition) -> GenModel {
    GenModel {
        frames: seq![
            FrameModel {
                work: body_work(exprs_view(main.body@)),
                stack: Seq::empty(),
                bindings: Seq::empty(),
                kind: KindModel::Main(main.unique_id),
            },
        ],
        builds: seq![main.unique_id],
        awaiting: AwaitModel::Nothing,
    }
}

/// The frames of a running generator: `main` at the bottom and only there, and
/// values on every stack.
pub open spec fn frames_shape(g: GenModel) -> bool {
    &&& g.frames.len() >= 1
    &&& forall|i: int| 0 <= i < g.frames.len() ==> ((#[trigger] g.frames[i]).kind is Main <==> i == 0)
    &&& forall|i: int| 0 <= i < g.frames.len() ==> stack_values((#[trigger] g.frames[i]).stack)
}

/// The constants of printed bytes, each at `span`.
pub open spec fn byte_constants(bytes: Seq<u8>, span: SpanModel) -> Seq<ExprModel> {
    Seq::new(bytes.len(), |k: int| ExprModel::Constant(bytes[k], span))
}

/// Handing the generator what its program printed: the bytes go on the top
/// frame's stack, as constants for a `==!` composition, as one Brainfuck block for
/// a `==?` composition.
pub open spec fn resume_s(g: GenModel, bytes: Seq<u8>) -> GenModel {
    let top = g.frames.last();
    let rest = g.frames.drop_last();
    let frames = match g.awaiting {
        AwaitModel::Code(s) => rest.push(with_value(top, ExprModel::Brainfuck(bytes_text(bytes), s))),
        AwaitModel::Constants(s) => rest.push(
            FrameModel {
                work: top.work,
                stack: top.stack + byte_constants(bytes, s),
                bindings: top.bindings,
                kind: top.kind,
            },
        ),
        AwaitModel::Nothing => g.frames,
    };
    GenModel { frames, builds: g.builds, awaiting: AwaitModel::Nothing }
}

/// Each value on a compile-time stack is a constant or a Brainfuck block.
pub open spec fn stack_values(s: Seq<ExprModel>) -> bool {
    forall|i: int|
        0 <= i < s.len() ==> (#[trigger] s[i] is Constant || s[i] is Brainfuck)
}

/// The name of a macro that the generator knows.
pub open spec fn autoperm_name() -> Seq<char> {
    seq!['a', 'u', 't', 'o', 'p', 'e', 'r', 'm', '!']
}

/// The Brainfuck program that `autoperm::autoperm_bf` generates for a stack effect
/// diagram such as `a b -- b a`, or `None` where it refuses the diagram.
pub uninterp spec fn autoperm_code(diagram: Seq<char>) -> Option<Seq<char>>;

/// Calls `autoperm::autoperm_bf`. The contract claims that the result is a function
/// of the diagram alone, named `autoperm_code`; the explanation of a refusal is the
/// error's text and is not stated.
#[verifier::external_body]
fn autoperm_bf(diagram: &str) -> (r: Result<String, String>)
    ensures
        match r {
            Ok(s) => autoperm_code(diagram@) == Some(s@),
            Err(_) => autoperm_code(diagram@) is None,
        },
{
    match autoperm::autoperm_bf(diagram) {
        Ok(code) => Ok(code),
        Err(e) => Err(e.to_string()),
    }
}


/// What the `autoperm!` macro called at `span` gives, from the result of the
/// `autoperm` call: the generated code as a Brainfuck block, or the error.
pub fn macro_outcome(result: Result<String, String>, span: Span) -> (r: Result<Expression, GenError>)
    ensures
        match result {
            Ok(code) => (r matches Ok(e) && e@ == ExprModel::Brainfuck(code@, span@)),
            Err(m) => r == Err::<Expression, GenError>(GenError::MacroFailed(m, span)),
        },
{
    match result {
        Ok(code) => Ok(Expression::Brainfuck(code, span)),
        Err(m) => Err(GenError::MacroFailed(m, span)),
    }
}

/// The text a composition's program printed, one character per byte (byte `b` is
/// the character of code point `b`).
pub open spec fn bytes_text(bytes: Seq<u8>) -> Seq<char> {
    Seq::new(bytes.len(), |i: int| bytes[i] as char)
}

/// The text of printed bytes.
pub fn text_of_bytes(bytes: &Vec<u8>) -> (r: String)
    ensures
        r@ == bytes_text(bytes@),
{
    let mut s = String::new();
    let mut k: usize = 0;
    while k < bytes.len()
        invariant
            k <= bytes@.len(),
            s@ == bytes_text(bytes@.subrange(0, k as int)),
        decreases bytes@.len() - k,
    {
        push_char(&mut s, bytes[k] as char);
        k = k + 1;
        assert(s@ =~= bytes_text(bytes@.subrange(0, k as int)));
    }
    assert(bytes@.subrange(0, k as int) =~= bytes@);
    s
}

/// The code of a finished stack: the code of its values, bottom first.
pub fn compile_stack(stack: &Vec<Expression>) -> (r: String)
    requires
        stack_values(exprs_view(stack@)),
    ensures
        r@ == exprs_code(exprs_view(stack@)),
{
    let mut result = String::new();
    let mut k: usize = 0;
    proof {
        lemma_exprs_view_len(stack@);
    }
    while k < stack.len()
        invariant
            k <= stack@.len(),
            exprs_view(stack@).len() == stack@.len(),
            stack_values(exprs_view(stack@)),
            result@ == exprs_code(exprs_view(stack@.subrange(0, k as int))),
        decreases stack@.len() - k,
    {
        proof {
            lemma_exprs_view_index(stack@, k as int);
            let e = exprs_view(stack@)[k as int];
            assert(e is Constant || e is Brainfuck);
            assert(is_code(e));
        }
        let part = stack[k].compiled();
        result.append(part.as_str());
        proof {
            let sub = stack@.subrange(0, k + 1);
            assert(sub =~= stack@.subrange(0, k as int).push(stack@[k as int]));
            lemma_exprs_view_push(stack@.subrange(0, k as int), stack@[k as int]);
            let m = exprs_view(sub);
            assert(m.drop_last() =~= exprs_view(stack@.subrange(0, k as int)));
        }
        k = k + 1;
    }
    assert(stack@.subrange(0, k as int) =~= stack@);
    result
}

/// A work list that gives the expressions in order when popped from its end.
fn reversed_work(body: &Vec<Expression>) -> (r: Vec<Work>)
    ensures
        works_view(r@) == body_work(exprs_view(body@)),
        r@.len() == body@.len(),
        forall|i: int|
            0 <= i < body@.len() ==> ((#[trigger] r@[i]) matches Work::Expr(e) && e@ == body@[body@.len() - 1 - i]@),
{
    let mut work: Vec<Work> = Vec::new();
    let mut k: usize = body.len();
    while k > 0
        invariant
            k <= body@.len(),
            work@.len() == body@.len() - k,
            forall|i: int|
                0 <= i < work@.len() ==> ((#[trigger] work@[i]) matches Work::Expr(e) && e@ == body@[body@.len() - 1 - i]@),
        decreases k,
    {
        k = k - 1;
        work.push(Work::Expr(body[k].duplicate()));
    }
    proof {
        lemma_exprs_view_len(body@);
        assert forall|i: int| 0 <= i < body@.len() implies #[trigger] works_view(work@)[i] == body_work(exprs_view(body@))[i] by {
            lemma_exprs_view_index(body@, body@.len() - 1 - i);
        }
        assert(works_view(work@) =~= body_work(exprs_view(body@)));
    }
    work
}

/// The list of definitions being built, without `id`.
pub open spec fn without(builds: Seq<usize>, id: usize) -> Seq<usize> {
    builds.filter(|x: usize| x != id)
}

/// Removes `id` from the list of definitions being built.
fn finish_build(builds: &mut Vec<usize>, id: usize)
    ensures
        final(builds)@ == without(old(builds)@, id),
{
    let mut kept: Vec<usize> = Vec::new();
    let mut k: usize = 0;
    proof {
        reveal(Seq::filter);
        assert(builds@.subrange(0, 0) =~= Seq::<usize>::empty());
        assert(kept@ =~= without(builds@.subrange(0, 0), id));
    }
    while k < builds.len()
        invariant
            k <= builds@.len(),
            kept@ == without(builds@.subrange(0, k as int), id),
        decreases builds@.len() - k,
    {
        let x = builds[k];
        proof {
            reveal(Seq::filter);
            let pre = builds@.subrange(0, k as int);
            let post = builds@.subrange(0, k + 1);
            assert(post.drop_last() =~= pre);
            assert(post.last() == x);
        }
        if x != id {
            kept.push(x);
        }
        k = k + 1;
    }
    assert(builds@.subrange(0, k as int) =~= builds@);
    *builds = kept;
}

/// A frame's compile-time stack holds constants and Brainfuck blocks only; only
/// the bottom frame compiles `main`.
pub open spec fn frame_ok(f: Frame, bottom: bool) -> bool {
    &&& stack_values(exprs_view(f.stack@))
    &&& (f.kind is Main <==> bottom)
}

/// The number of stack values a composition frame replaces when it is done.
pub open spec fn replaced(kind: FrameKind) -> nat {
    match kind {
        FrameKind::Constants(_, _, size) => size as nat,
        FrameKind::Code(_, _, size) => size as nat,
        _ => 0,
    }
}

/// Every frame is well formed, and below each composition frame are at least the
/// values it replaces.
pub open spec fn frames_ok(fs: Seq<Frame>) -> bool {
    &&& forall|i: int| 0 <= i < fs.len() ==> frame_ok(#[trigger] fs[i], i == 0)
    &&& forall|i: int|
        1 <= i < fs.len() ==> fs[i - 1].stack@.len() >= replaced(#[trigger] fs[i].kind)
}

/// Copies a list of bindings.
fn copy_bindings(b: &Vec<(char, Expression)>) -> (r: Vec<(char, Expression)>)
    ensures
        binds_view(r@) == binds_view(b@),
{
    let mut out: Vec<(char, Expression)> = Vec::new();
    let mut k: usize = 0;
    while k < b.len()
        invariant
            k <= b@.len(),
            out@.len() == k,
            forall|j: int| 0 <= j < k ==> (#[trigger] out@[j]).0 == b@[j].0 && out@[j].1@ == b@[j].1@,
        decreases b@.len() - k,
    {
        let (c, e) = &b[k];
        out.push((*c, e.duplicate()));
        k = k + 1;
    }
    assert(binds_view(out@) =~= binds_view(b@));
    out
}

/// The generator of the code of `main`.
pub struct Generator {
    frames: Vec<Frame>,
    builds: Vec<usize>,
    awaiting: Awaiting,
}

impl View for Generator {
    type V = GenModel;

    closed spec fn view(&self) -> GenModel {
        GenModel { frames: frames_view(self.frames@), builds: self.builds@, awaiting: await_view(self.awaiting) }
    }
}

proof fn lemma_frames_view_push(fs: Seq<Frame>, f: Frame)
    ensures
        frames_view(fs.push(f)) == frames_view(fs).push(frame_view(f)),
{
    assert(frames_view(fs.push(f)) =~= frames_view(fs).push(frame_view(f)));
}

proof fn lemma_frames_view_pop(fs: Seq<Frame>)
    requires
        fs.len() > 0,
    ensures
        frames_view(fs.drop_last()) == frames_view(fs).drop_last(),
        frame_view(fs.last()) == frames_view(fs).last(),
{
    assert(frames_view(fs.drop_last()) =~= frames_view(fs).drop_last());
}

proof fn lemma_works_view_add(a: Seq<Work>, b: Seq<Work>)
    ensures
        works_view(a + b) == works_view(a) + works_view(b),
{
    assert(works_view(a + b) =~= works_view(a) + works_view(b));
}

proof fn lemma_exprs_view_prefix(v: Seq<Expression>, n: int)
    requires
        0 <= n <= v.len(),
    ensures
        exprs_view(v.subrange(0, n)) == exprs_view(v).subrange(0, n),
{
    let sub = v.subrange(0, n);
    lemma_exprs_view_len(v);
    lemma_exprs_view_len(sub);
    assert forall|i: int| 0 <= i < n implies #[trigger] exprs_view(sub)[i] == exprs_view(v).subrange(0, n)[i] by {
        lemma_exprs_view_index(sub, i);
        lemma_exprs_view_index(v, i);
    }
    assert(exprs_view(sub) =~= exprs_view(v).subrange(0, n));
}

impl Generator {
    /// The frames are well formed: the bottom one compiles `main`, every stack
    /// holds values, and below each composition frame are at least the values it
    /// replaces.
    pub closed spec fn wf(self) -> bool {
        self.frames@.len() >= 1 && frames_ok(self.frames@)
    }

    /// The generator can make a step.
    pub closed spec fn running(self) -> bool {
        self.wf() && self.awaiting is Nothing
    }

    /// The generator waits for the output of the program it asked to run.
    pub closed spec fn waiting(self) -> bool {
        self.wf() && !(self.awaiting is Nothing)
    }

    /// Only the body of `main` is left, and it has no work left.
    pub closed spec fn finishing(self) -> bool {
        self.frames@.len() == 1 && self.frames@[0].work@.len() == 0
    }

    /// The code of the values on the stack of `main`.
    pub closed spec fn main_code(self) -> Seq<char> {
        exprs_code(exprs_view(self.frames@[0].stack@))
    }

    /// The body on top is a finished composition: it has no work left and is a
    /// `==!` or a `==?` definition.
    pub closed spec fn composition_done(self) -> bool {
        &&& self.frames@.len() >= 1
        &&& self.frames@.last().work@.len() == 0
        &&& (self.frames@.last().kind is Constants || self.frames@.last().kind is Code)
    }

    /// The code of the values on the stack of the body on top.
    pub closed spec fn top_code(self) -> Seq<char> {
        exprs_code(exprs_view(self.frames@.last().stack@))
    }

    /// The definitions being built.
    pub closed spec fn building(self) -> Seq<usize> {
        self.builds@
    }

    /// A generator that is running or waiting has the frames of one.
    pub proof fn lemma_frames_shape(&self)
        requires
            self.running() || self.waiting(),
        ensures
            frames_shape(self@),
    {
        let fs = self.frames@;
        assert forall|i: int| 0 <= i < fs.len() implies ((#[trigger] frames_view(fs)[i]).kind is Main <==> i == 0) by {
            assert(frame_ok(fs[i], i == 0));
        }
        assert forall|i: int| 0 <= i < fs.len() implies stack_values((#[trigger] frames_view(fs)[i]).stack) by {
            assert(frame_ok(fs[i], i == 0));
        }
    }

    /// Starts generating the code of `main`, which must have no stack pattern.
    pub fn new(main: &Definition) -> (r: Result<Generator, GenError>)
        ensures
            main.stack is Some <==> r is Err,
            r matches Err(e) ==> e == GenError::MainHasPattern(main.span),
            r matches Ok(g) ==> g.running() && g.building() == seq![main.unique_id],
            r matches Ok(g) ==> g@ == initial_model(*main),
    {
        if main.stack.is_some() {
            return Err(GenError::MainHasPattern(main.span));
        }
        let no_bindings: Vec<(char, Expression)> = Vec::new();
        let body = apply_constraints(&no_bindings, main.body.as_slice());
        proof {
            assert(binds_view(no_bindings@) =~= Seq::<(char, ExprModel)>::empty());
            lemma_subst_exprs_empty(exprs_view(main.body@));
        }
        let frame = Frame {
            work: reversed_work(&body),
            stack: Vec::new(),
            bindings: no_bindings,
            kind: FrameKind::Main(main.unique_id),
        };
        let mut frames: Vec<Frame> = Vec::new();
        frames.push(frame);
        let mut builds: Vec<usize> = Vec::new();
        builds.push(main.unique_id);
        let g = Generator { frames, builds, awaiting: Awaiting::Nothing };
        proof {
            assert(exprs_view(g.frames@[0].stack@) =~= Seq::<ExprModel>::empty());
            assert(builds@ =~= seq![main.unique_id]);
            assert(frames_view(g.frames@) =~= seq![frame_view(frame)]);
        }
        Ok(g)
    }

    /// Does the next piece of work: rewrites one expression, or finishes a body.
    pub fn step(&mut self, modules: &[ModuleAst]) -> (r: Step)
        requires
            old(self).running(),
        ensures
            (final(self)@, step_view(r)) == step_s(old(self)@, modules@),
            r is Continue ==> final(self).running(),
            r is Execute ==> final(self).waiting(),
            r matches Step::Execute(code) ==> old(self).composition_done() && code@
                == old(self).top_code(),
            r matches Step::Done(code) ==> old(self).finishing() && code@ == old(self).main_code(),
    {
        let mut frame = self.frames.pop().unwrap();
        let ghost depth = self.frames@.len();
        let ghost top = frame;
        proof {
            assert(frame == old(self).frames@[depth as int]);
            assert(frame_ok(frame, depth == 0));
            lemma_frames_view_pop(old(self).frames@);
            assert(old(self).frames@.drop_last() =~= self.frames@);
        }
        match frame.work.pop() {
            None => self.finish_frame(frame),
            Some(Work::Finish(id)) => {
                proof {
                    assert(works_view(frame.work@) =~= works_view(top.work@).drop_last());
                }
                finish_build(&mut self.builds, id);
                self.frames.push(frame);
                proof {
                    assert(self.frames@ =~= old(self).frames@.drop_last().push(frame));
                    lemma_frames_view_push(old(self).frames@.drop_last(), frame);
                }
                Step::Continue
            },
            Some(Work::Expr(expr)) => {
                proof {
                    assert(works_view(frame.work@) =~= works_view(top.work@).drop_last());
                }
                self.rewrite(frame, expr, modules)
            },
        }
    }

    /// A frame has no work left: its code goes where its kind says.
    fn finish_frame(&mut self, frame: Frame) -> (r: Step)
        requires
            frames_ok(old(self).frames@.push(frame)),
            frame.work@.len() == 0,
            old(self).awaiting is Nothing,
        ensures
            (final(self)@, step_view(r)) == finish_s(old(self)@, old(self)@.frames, frame_view(frame)),
            r is Continue ==> final(self).running(),
            r is Execute ==> final(self).waiting(),
            r matches Step::Done(code) ==> old(self).frames@.len() == 0 && code@ == exprs_code(
                exprs_view(frame.stack@),
            ),
            r matches Step::Execute(code) ==> (frame.kind is Constants || frame.kind is Code)
                && code@ == exprs_code(exprs_view(frame.stack@)),
    {
        let ghost fs = old(self).frames@;
        proof {
            assert(fs.push(frame)[fs.len() as int] == frame);
            assert(frame_ok(frame, fs.len() == 0));
        }
        let code = compile_stack(&frame.stack);
        match frame.kind {
            FrameKind::Main(id) => {
                finish_build(&mut self.builds, id);
                Step::Done(code)
            },
            FrameKind::Quotation(span) => {
                let mut parent = self.frames.pop().unwrap();
                let ghost rest = self.frames@;
                proof {
                    assert(fs =~= rest.push(parent));
                    lemma_frames_ok_prefix(fs, frame);
                    lemma_frames_view_pop(fs);
                }
                let e = Expression::Brainfuck(code, span);
                add_value(Ghost(rest), &mut parent, e);
                self.frames.push(parent);
                proof {
                    lemma_frames_view_push(rest, parent);
                }
                Step::Continue
            },
            FrameKind::Constants(span, id, size) => {
                finish_build(&mut self.builds, id);
                self.drop_replaced(frame, size);
                self.awaiting = Awaiting::Constants(span);
                Step::Execute(code)
            },
            FrameKind::Code(span, id, size) => {
                finish_build(&mut self.builds, id);
                self.drop_replaced(frame, size);
                self.awaiting = Awaiting::Code(span);
                Step::Execute(code)
            },
        }
    }

    /// Removes from the top frame the values that the finished composition `frame`
    /// replaces.
    fn drop_replaced(&mut self, frame: Frame, size: usize)
        requires
            frames_ok(old(self).frames@.push(frame)),
            old(self).frames@.len() >= 1,
            replaced(frame.kind) == size,
        ensures
            final(self).frames@.len() >= 1,
            frames_ok(final(self).frames@),
            final(self).builds == old(self).builds,
            final(self).awaiting == old(self).awaiting,
            final(self)@ == with_frames(
                old(self)@,
                old(self)@.frames.drop_last().push(without_top(old(self)@.frames.last(), size as nat)),
            ),
    {
        let ghost fs = old(self).frames@;
        let mut parent = self.frames.pop().unwrap();
        let ghost rest = self.frames@;
        proof {
            assert(fs =~= rest.push(parent));
            assert(fs.push(frame)[fs.len() - 1] == parent);
            assert(fs.push(frame)[fs.len() as int] == frame);
            lemma_frames_ok_prefix(fs, frame);
            assert(frame_ok(parent, rest.len() == 0));
            lemma_frames_view_pop(fs);
        }
        let n = parent.stack.len();
        let ghost before = parent;
        parent.stack.truncate(n - size);
        proof {
            assert(parent.stack@ =~= before.stack@.subrange(0, n - size));
            lemma_stack_values_prefix(before.stack@, n - size);
            lemma_frames_ok_replace_top(rest, before, parent);
            lemma_exprs_view_prefix(before.stack@, n - size);
            lemma_exprs_view_len(before.stack@);
        }
        self.frames.push(parent);
        proof {
            lemma_frames_view_push(rest, parent);
        }
    }

    /// Pushes `frame` back on top, and `child` above it when there is one.
    fn push_frames(&mut self, frame: Frame, child: Option<Frame>)
        requires
            frames_ok(old(self).frames@.push(frame)),
            old(self).awaiting is Nothing,
            child matches Some(c) ==> frame_ok(c, false) && frame.stack@.len() >= replaced(c.kind),
        ensures
            final(self).running(),
            final(self).builds == old(self).builds,
            final(self)@ == with_frames(
                old(self)@,
                match child {
                    Some(c) => old(self)@.frames.push(frame_view(frame)).push(frame_view(c)),
                    None => old(self)@.frames.push(frame_view(frame)),
                },
            ),
    {
        let ghost fs = old(self).frames@.push(frame);
        self.frames.push(frame);
        proof {
            lemma_frames_view_push(old(self).frames@, frame);
        }
        match child {
            Some(c) => {
                self.frames.push(c);
                proof {
                    let nfs = self.frames@;
                    assert(nfs =~= fs.push(c));
                    lemma_frames_view_push(fs, c);
                    assert forall|i: int| 0 <= i < nfs.len() implies frame_ok(#[trigger] nfs[i], i == 0) by {
                        if i < nfs.len() - 1 {
                            assert(nfs[i] == fs[i]);
                        }
                    }
                    assert forall|i: int| 1 <= i < nfs.len() implies nfs[i - 1].stack@.len() >= replaced(#[trigger] nfs[i].kind) by {
                        if i < nfs.len() - 1 {
                            assert(nfs[i] == fs[i]);
                        }
                        assert(nfs[i - 1] == fs[i - 1]);
                    }
                }
            },
            None => {
                assert(self.frames@ =~= fs);
            },
        }
    }

    /// Rewrites one expression taken from the work of `frame`.
    fn rewrite(&mut self, frame: Frame, expr: Expression, modules: &[ModuleAst]) -> (r: Step)
        requires
            frames_ok(old(self).frames@.push(frame)),
            old(self).awaiting is Nothing,
        ensures
            (final(self)@, step_view(r)) == rewrite_s(old(self)@, old(self)@.frames, frame_view(frame), expr@, modules@),
            r is Continue ==> final(self).running(),
            !(r is Execute),
            !(r is Done),
    {
        let mut frame = frame;
        let ghost fs = old(self).frames@;
        proof {
            assert(fs.push(frame)[fs.len() as int] == frame);
        }
        match expr {
            Expression::Function(module, name, span) => self.call(frame, module, name, span, modules),
            Expression::Quotation(q, s) => {
                let bindings = copy_bindings(&frame.bindings);
                let body = apply_constraints(&frame.bindings, q.as_slice());
                let child = Frame {
                    work: reversed_work(&body),
                    stack: Vec::new(),
                    bindings,
                    kind: FrameKind::Quotation(s),
                };
                assert(exprs_view(child.stack@) =~= Seq::<ExprModel>::empty());
                self.push_frames(frame, Some(child));
                Step::Continue
            },
            Expression::Macro(input, method, s) => {
                let known = String::from_str("autoperm!");
                proof {
                    reveal_strlit("autoperm!");
                    assert(known@ =~= autoperm_name());
                }
                if !(method == known) {
                    return Step::Failed(GenError::InvalidMacro(method, s));
                }
                match macro_outcome(autoperm_bf(input.as_str()), s) {
                    Ok(e) => {
                        self.push_value(frame, e);
                        Step::Continue
                    },
                    Err(err) => Step::Failed(err),
                }
            },
            Expression::Constant(n, s) => {
                self.push_value(frame, Expression::Constant(n, s));
                Step::Continue
            },
            Expression::Brainfuck(b, s) => {
                self.push_value(frame, Expression::Brainfuck(b, s));
                Step::Continue
            },
        }
    }

    /// Pushes a value on the stack of `frame`, and `frame` back on top.
    fn push_value(&mut self, frame: Frame, e: Expression)
        requires
            frames_ok(old(self).frames@.push(frame)),
            old(self).awaiting is Nothing,
            e@ is Constant || e@ is Brainfuck,
        ensures
            final(self).running(),
            final(self)@ == with_frames(old(self)@, old(self)@.frames.push(with_value(frame_view(frame), e@))),
    {
        let mut frame = frame;
        add_value(Ghost(self.frames@), &mut frame, e);
        self.push_frames(frame, None);
    }

    /// Rewrites a call of `module.name` at `span` with the definition chosen for the
    /// stack of `frame`.
    fn call(
        &mut self,
        frame: Frame,
        module: String,
        name: String,
        span: Span,
        modules: &[ModuleAst],
    ) -> (r: Step)
        requires
            frames_ok(old(self).frames@.push(frame)),
            old(self).awaiting is Nothing,
        ensures
            (final(self)@, step_view(r)) == call_s(
                old(self)@,
                old(self)@.frames,
                frame_view(frame),
                modules@,
                module@,
                name@,
                span@,
            ),
            r is Continue ==> final(self).running(),
            !(r is Execute),
            !(r is Done),
    {
        let mut frame = frame;
        let ghost fs = old(self).frames@;
        proof {
            assert(fs.push(frame)[fs.len() as int] == frame);
        }
        let defs = match find_definitions(modules, &module, &name) {
            Some(defs) => defs,
            None => {
                return Step::Failed(GenError::UnknownFunction(module, name, span));
            },
        };
        let (j, bindings) = match select_definition(defs, &self.builds, frame.stack.as_slice()) {
            Some(found) => found,
            None => {
                return Step::Failed(GenError::NoUnusedDefinition(name, span));
            },
        };
        let def = &defs[j];
        let id = def.unique_id;
        let size = def.stack_size();
        proof {
            lemma_exprs_view_len(frame.stack@);
            if def.stack is Some {
                lemma_match_args_len(exprs_view(frame.stack@), def.stack->0.args@, 0, Seq::empty());
            }
            assert(size <= frame.stack@.len());
        }
        match def.typ {
            DefinitionType::Function => {
                self.builds.push(id);
                let ghost before = frame;
                frame.work.push(Work::Finish(id));
                let mut rest = reversed_work(&def.body);
                let ghost pushed = frame.work@;
                let ghost rest_work = rest@;
                frame.work.append(&mut rest);
                proof {
                    lemma_frames_ok_replace_top(fs, before, frame);
                    lemma_works_view_add(pushed, rest_work);
                    assert(works_view(pushed) =~= works_view(before.work@).push(WorkModel::Finish(id)));
                }
                self.push_frames(frame, None);
                Step::Continue
            },
            DefinitionType::InlineComposition => {
                self.builds.push(id);
                let ghost before = frame;
                frame.work.push(Work::Finish(id));
                let body = apply_constraints(&bindings, def.body.as_slice());
                let mut rest = reversed_work(&body);
                let ghost pushed = frame.work@;
                let ghost rest_work = rest@;
                frame.work.append(&mut rest);
                let n = frame.stack.len();
                frame.stack.truncate(n - size);
                proof {
                    assert(frame.stack@ =~= before.stack@.subrange(0, n - size));
                    assert(frame_ok(before, fs.len() == 0));
                    lemma_stack_values_prefix(before.stack@, n - size);
                    lemma_frames_ok_replace_top(fs, before, frame);
                    lemma_exprs_view_prefix(before.stack@, n - size);
                    lemma_works_view_add(pushed, rest_work);
                    assert(works_view(pushed) =~= works_view(before.work@).push(WorkModel::Finish(id)));
                }
                self.push_frames(frame, None);
                Step::Continue
            },
            DefinitionType::ConstantComposition | DefinitionType::Composition => {
                self.builds.push(id);
                let body = apply_constraints(&bindings, def.body.as_slice());
                let kind = match def.typ {
                    DefinitionType::ConstantComposition => FrameKind::Constants(span, id, size),
                    _ => FrameKind::Code(span, id, size),
                };
                let child = Frame { work: reversed_work(&body), stack: Vec::new(), bindings, kind };
                assert(exprs_view(child.stack@) =~= Seq::<ExprModel>::empty());
                self.push_frames(frame, Some(child));
                Step::Continue
            },
        }
    }

    /// Hands the generator what the program it asked to run printed, or why it
    /// failed. The printed bytes replace the values the composition matched: as
    /// constants for `==!`, as one Brainfuck block for `==?`.
    pub fn resume(&mut self, output: Result<Vec<u8>, ExecutionError>) -> (r: Option<GenError>)
        requires
            old(self).waiting(),
        ensures
            r is None ==> final(self).running(),
            r is None <==> output is Ok,
            output matches Ok(bytes) ==> final(self)@ == resume_s(old(self)@, bytes@),
            output matches Err(e) ==> final(self)@ == old(self)@,
            output matches Err(e) ==> (r matches Some(GenError::ExecutionFailed(x, s)) && x == e && (match old(
                self,
            )@.awaiting {
                AwaitModel::Constants(t) => s@ == t,
                AwaitModel::Code(t) => s@ == t,
                AwaitModel::Nothing => true,
            })),
    {
        let awaiting = self.awaiting;
        let span = match awaiting {
            Awaiting::Constants(s) => s,
            Awaiting::Code(s) => s,
            Awaiting::Nothing => Span::new(0, 0, 0),
        };
        let bytes = match output {
            Ok(bytes) => bytes,
            Err(e) => {
                return Some(GenError::ExecutionFailed(e, span));
            },
        };
        self.awaiting = Awaiting::Nothing;
        let frame = self.frames.pop().unwrap();
        proof {
            assert(old(self).frames@ =~= self.frames@.push(frame));
            lemma_frames_view_pop(old(self).frames@);
        }
        match awaiting {
            Awaiting::Code(s) => {
                let text = text_of_bytes(&bytes);
                self.push_value(frame, Expression::Brainfuck(text, s));
            },
            _ => {
                self.push_constants(frame, &bytes, span);
            },
        }
        None
    }

    /// Pushes one constant per byte on the stack of `frame`, and `frame` back on top.
    fn push_constants(&mut self, frame: Frame, bytes: &Vec<u8>, span: Span)
        requires
            frames_ok(old(self).frames@.push(frame)),
            old(self).awaiting is Nothing,
        ensures
            final(self).running(),
            final(self)@ == with_frames(
                old(self)@,
                old(self)@.frames.push(
                    FrameModel {
                        work: frame_view(frame).work,
                        stack: frame_view(frame).stack + byte_constants(bytes@, span@),
                        bindings: frame_view(frame).bindings,
                        kind: frame_view(frame).kind,
                    },
                ),
            ),
    {
        let mut frame = frame;
        let ghost f0 = frame_view(frame);
        let ghost fs = self.frames@;
        let mut k: usize = 0;
        proof {
            assert(f0.stack + byte_constants(bytes@.take(0), span@) =~= f0.stack);
        }
        while k < bytes.len()
            invariant
                k <= bytes@.len(),
                fs == self.frames@,
                frames_ok(fs.push(frame)),
                frame_view(frame) == (FrameModel {
                    work: f0.work,
                    stack: f0.stack + byte_constants(bytes@.take(k as int), span@),
                    bindings: f0.bindings,
                    kind: f0.kind,
                }),
            decreases bytes@.len() - k,
        {
            add_value(Ghost(fs), &mut frame, Expression::Constant(bytes[k], span));
            proof {
                assert(f0.stack + byte_constants(bytes@.take(k + 1), span@) =~= (f0.stack + byte_constants(
                    bytes@.take(k as int),
                    span@,
                )).push(ExprModel::Constant(bytes@[k as int], span@)));
            }
            k = k + 1;
        }
        proof {
            assert(bytes@.take(k as int) =~= bytes@);
        }
        self.push_frames(frame, None);
    }
}

/// Pushes a value on the stack of `frame`, the top of the frames `fs`.
fn add_value(Ghost(fs): Ghost<Seq<Frame>>, frame: &mut Frame, e: Expression)
    requires
        frames_ok(fs.push(*old(frame))),
        e@ is Constant || e@ is Brainfuck,
    ensures
        frames_ok(fs.push(*final(frame))),
        final(frame).kind == old(frame).kind,
        frame_view(*final(frame)) == with_value(frame_view(*old(frame)), e@),
{
    let ghost before = *frame;
    proof {
        assert(fs.push(before)[fs.len() as int] == before);
        lemma_exprs_view_push(frame.stack@, e);
        lemma_exprs_view_len(frame.stack@);
    }
    frame.stack.push(e);
    proof {
        let v = exprs_view(frame.stack@);
        assert(v == exprs_view(before.stack@).push(e@));
        assert forall|k: int| 0 <= k < v.len() implies (#[trigger] v[k] is Constant || v[k] is Brainfuck) by {
            if k < exprs_view(before.stack@).len() {
                assert(v[k] == exprs_view(before.stack@)[k]);
            }
        }
        lemma_frames_ok_replace_top(fs, before, *frame);
    }
}

/// The frames below the top are well formed when all are.
pub proof fn lemma_frames_ok_prefix(fs: Seq<Frame>, top: Frame)
    requires
        frames_ok(fs.push(top)),
    ensures
        frames_ok(fs),
{
    let all = fs.push(top);
    assert forall|i: int| 0 <= i < fs.len() implies frame_ok(#[trigger] fs[i], i == 0) by {
        assert(all[i] == fs[i]);
    }
    assert forall|i: int| 1 <= i < fs.len() implies fs[i - 1].stack@.len() >= replaced(#[trigger] fs[i].kind) by {
        assert(all[i] == fs[i]);
        assert(all[i - 1] == fs[i - 1]);
    }
}

/// Replacing the top frame by one of the same kind whose stack holds values keeps
/// the frames well formed.
pub proof fn lemma_frames_ok_replace_top(fs: Seq<Frame>, old_top: Frame, new_top: Frame)
    requires
        frames_ok(fs.push(old_top)),
        new_top.kind == old_top.kind,
        stack_values(exprs_view(new_top.stack@)),
    ensures
        frames_ok(fs.push(new_top)),
{
    let ofs = fs.push(old_top);
    let nfs = fs.push(new_top);
    assert forall|i: int| 0 <= i < nfs.len() implies frame_ok(#[trigger] nfs[i], i == 0) by {
        assert(frame_ok(ofs[i], i == 0));
        if i < fs.len() {
            assert(nfs[i] == ofs[i]);
        }
    }
    assert forall|i: int| 1 <= i < nfs.len() implies nfs[i - 1].stack@.len() >= replaced(#[trigger] nfs[i].kind) by {
        assert(ofs[i - 1].stack@.len() >= replaced(ofs[i].kind));
        assert(nfs[i - 1] == ofs[i - 1]);
        if i < fs.len() {
            assert(nfs[i] == ofs[i]);
        }
    }
}

/// A prefix of a stack of values holds values.
pub proof fn lemma_stack_values_prefix(st: Seq<Expression>, n: int)
    requires
        stack_values(exprs_view(st)),
        0 <= n <= st.len(),
    ensures
        stack_values(exprs_view(st.subrange(0, n))),
{
    let sub = st.subrange(0, n);
    lemma_exprs_view_len(st);
    lemma_exprs_view_len(sub);
    assert forall|i: int| 0 <= i < sub.len() implies (#[trigger] exprs_view(sub)[i] is Constant || exprs_view(sub)[i] is Brainfuck) by {
        lemma_exprs_view_index(sub, i);
        lemma_exprs_view_index(st, i);
        assert(exprs_view(st)[i] is Constant || exprs_view(st)[i] is Brainfuck);
    }
}

} // verus!
