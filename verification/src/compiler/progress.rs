//! What holds over a whole run of the generator: the definitions marked as
//! being built are each still being built by some frame, so when the code of
//! `main` is done, none is left; and a `main` that is one byte constant becomes
//! the code of that byte, whatever its span.
use vstd::prelude::*;

use crate::compiler::ast::Definition;
use crate::compiler::ast::ModuleAst;
use crate::compiler::gen::frames_shape;
use crate::compiler::gen::initial_model;
use crate::compiler::gen::resume_s;
use crate::compiler::gen::step_s;
use crate::compiler::gen::without;
use crate::compiler::gen::without_last_work;
use crate::compiler::gen::rewrite_s;
use crate::compiler::ast::lookup_defs;
use crate::compiler::gen::last_applicable;
use crate::compiler::ast::DefinitionType;
use crate::compiler::ast::ExprModel;
use crate::compiler::ast::exprs_code;
use crate::compiler::ast::expr_code;
use crate::compiler::ast::exprs_view;
use crate::span::SpanModel;
use crate::stdlib::dumb_code;
use crate::compiler::gen::FrameModel;
use crate::compiler::gen::GenModel;
use crate::compiler::gen::KindModel;
use crate::compiler::gen::StepModel;
use crate::compiler::gen::WorkModel;

verus! {

/// The definition a frame builds, if any.
pub open spec fn frame_id(k: KindModel) -> Option<usize> {
    match k {
        KindModel::Main(id) => Some(id),
        KindModel::Quotation(_) => None,
        KindModel::Constants(_, id, _) => Some(id),
        KindModel::Code(_, id, _) => Some(id),
    }
}

/// The frame `f` still builds the definition `x`: as its own, or through a
/// pending end of a body in its work.
pub open spec fn marks(f: FrameModel, x: usize) -> bool {
    ||| frame_id(f.kind) == Some(x)
    ||| exists|k: int| 0 <= k < f.work.len() && f.work[k] == WorkModel::Finish(x)
}

/// Every definition marked as being built is still being built by some frame.
pub open spec fn builds_tracked(g: GenModel) -> bool {
    forall|x: usize|
        #[trigger] g.builds.contains(x) ==> exists|i: int| 0 <= i < g.frames.len() && marks(g.frames[i], x)
}

proof fn lemma_without(builds: Seq<usize>, id: usize, x: usize)
    requires
        without(builds, id).contains(x),
    ensures
        builds.contains(x),
        x != id,
    decreases builds.len(),
{
    reveal(Seq::filter);
    if builds.len() == 0 {
        assert(without(builds, id).len() == 0);
    } else {
        let b = builds.drop_last();
        let k = choose|k: int| 0 <= k < without(builds, id).len() && without(builds, id)[k] == x;
        if builds.last() != id && k == without(builds, id).len() - 1 {
            assert(without(builds, id) == without(b, id).push(builds.last()));
            assert(builds[builds.len() - 1] == x);
        } else {
            if builds.last() != id {
                assert(without(builds, id) == without(b, id).push(builds.last()));
            } else {
                assert(without(builds, id) == without(b, id));
            }
            assert(without(b, id)[k] == x);
            lemma_without(b, id, x);
            let j = choose|j: int| 0 <= j < b.len() && b[j] == x;
            assert(builds[j] == x);
        }
    }
}

/// A frame with the same kind and the same work, or more work after it, marks
/// what the first one marks.
proof fn lemma_marks_kept(a: FrameModel, b: FrameModel, x: usize)
    requires
        marks(a, x),
        a.kind == b.kind,
        a.work.len() <= b.work.len(),
        forall|k: int| 0 <= k < a.work.len() ==> b.work[k] == a.work[k],
    ensures
        marks(b, x),
{
    if frame_id(a.kind) != Some(x) {
        let k = choose|k: int| 0 <= k < a.work.len() && a.work[k] == WorkModel::Finish(x);
        assert(b.work[k] == WorkModel::Finish(x));
    }
}

/// The generator for `main` marks only `main`, which its frame builds.
pub proof fn lemma_initial_tracked(main: Definition)
    ensures
        builds_tracked(initial_model(main)),
{
    let g = initial_model(main);
    assert forall|x: usize| #[trigger] g.builds.contains(x) implies exists|i: int|
        0 <= i < g.frames.len() && marks(g.frames[i], x) by {
        assert(g.builds[0] == main.unique_id);
        assert(marks(g.frames[0], x));
    }
}

/// Handing the generator what its program printed keeps every mark tracked.
pub proof fn lemma_resume_tracked(g: GenModel, bytes: Seq<u8>)
    requires
        builds_tracked(g),
        g.frames.len() >= 1,
    ensures
        builds_tracked(resume_s(g, bytes)),
{
    let g2 = resume_s(g, bytes);
    let n = g.frames.len() as int;
    assert forall|x: usize| #[trigger] g2.builds.contains(x) implies exists|i: int|
        0 <= i < g2.frames.len() && marks(g2.frames[i], x) by {
        let i = choose|i: int| 0 <= i < g.frames.len() && marks(g.frames[i], x);
        assert(g2.frames.len() == n);
        if i == n - 1 {
            lemma_marks_kept(g.frames[i], g2.frames[i], x);
        } else {
            assert(g2.frames[i] == g.frames[i]);
        }
    }
}

/// A frame whose last work entry is no end of the body of `x` still marks `x`
/// once that entry is taken.
proof fn lemma_marks_taken(f: FrameModel, x: usize)
    requires
        marks(f, x),
        f.work.len() > 0,
        f.work.last() != WorkModel::Finish(x),
    ensures
        marks(without_last_work(f), x),
{
    if frame_id(f.kind) != Some(x) {
        let k = choose|k: int| 0 <= k < f.work.len() && f.work[k] == WorkModel::Finish(x);
        assert(k != f.work.len() - 1);
        assert(without_last_work(f).work[k] == WorkModel::Finish(x));
    }
}

/// A frame with no work marks only the definition it builds.
proof fn lemma_marks_idle(f: FrameModel, x: usize)
    requires
        marks(f, x),
        f.work.len() == 0,
    ensures
        frame_id(f.kind) == Some(x),
{
}

/// Rewriting an expression of the top frame keeps every mark tracked.
proof fn lemma_rewrite_tracked(g: GenModel, modules: Seq<ModuleAst>, e: ExprModel)
    requires
        builds_tracked(g),
        g.frames.len() >= 1,
        g.frames.last().work.len() > 0,
        g.frames.last().work.last() == WorkModel::Expr(e),
        step_s(g, modules).1 is Continue || step_s(g, modules).1 is Execute,
    ensures
        builds_tracked(step_s(g, modules).0),
{
    let n = g.frames.len() as int;
    let top = g.frames.last();
    let rest = g.frames.drop_last();
    let f = without_last_work(top);
    let (g2, out) = step_s(g, modules);
    assert((g2, out) == rewrite_s(g, rest, f, e, modules));
    assert(g2.frames.len() >= n);
    assert forall|i: int| 0 <= i < n - 1 implies g2.frames[i] == g.frames[i] by {
        assert(rest[i] == g.frames[i]);
    }
    // the frame that took the expression keeps its kind and the start of its work
    assert(g2.frames[n - 1].kind == f.kind);
    assert(g2.frames[n - 1].work.len() >= f.work.len());
    assert(forall|k: int| 0 <= k < f.work.len() ==> g2.frames[n - 1].work[k] == f.work[k]);
    assert forall|x: usize| #[trigger] g2.builds.contains(x) implies exists|i: int|
        0 <= i < g2.frames.len() && marks(g2.frames[i], x) by {
        if g.builds.contains(x) {
            let i = choose|i: int| 0 <= i < g.frames.len() && marks(g.frames[i], x);
            if i == n - 1 {
                lemma_marks_taken(top, x);
                lemma_marks_kept(f, g2.frames[n - 1], x);
            } else {
                assert(marks(g2.frames[i], x));
            }
        } else {
            // a new mark: the definition just called
            if let ExprModel::Function(m, nm, s) = e {
                let defs = lookup_defs(modules, m, nm)->0;
                let j = last_applicable(defs, g.builds, f.stack, defs.len() as int)->0;
                let d = defs[j];
                assert(g2.builds == g.builds.push(d.unique_id));
                assert(x == d.unique_id);
                match d.typ {
                    DefinitionType::Function => {
                        assert(g2.frames[n - 1].work[f.work.len() as int] == WorkModel::Finish(x));
                        assert(marks(g2.frames[n - 1], x));
                    },
                    DefinitionType::InlineComposition => {
                        assert(g2.frames[n - 1].work[f.work.len() as int] == WorkModel::Finish(x));
                        assert(marks(g2.frames[n - 1], x));
                    },
                    _ => {
                        assert(marks(g2.frames[n], x));
                    },
                }
            }
        }
    }
}

/// Ending the body of a definition keeps every mark tracked.
proof fn lemma_end_tracked(g: GenModel, modules: Seq<ModuleAst>, id: usize)
    requires
        builds_tracked(g),
        g.frames.len() >= 1,
        g.frames.last().work.len() > 0,
        g.frames.last().work.last() == WorkModel::Finish(id),
    ensures
        builds_tracked(step_s(g, modules).0),
{
    let n = g.frames.len() as int;
    let top = g.frames.last();
    let g2 = step_s(g, modules).0;
    assert(g2.frames.len() == n);
    assert forall|x: usize| #[trigger] g2.builds.contains(x) implies exists|i: int|
        0 <= i < g2.frames.len() && marks(g2.frames[i], x) by {
        lemma_without(g.builds, id, x);
        let i = choose|i: int| 0 <= i < g.frames.len() && marks(g.frames[i], x);
        if i == n - 1 {
            lemma_marks_taken(top, x);
            assert(g2.frames[i] == without_last_work(top));
        } else {
            assert(g2.frames[i] == g.frames[i]);
        }
    }
}

/// A frame other than `main` that is done keeps every mark tracked.
proof fn lemma_finish_tracked(g: GenModel, modules: Seq<ModuleAst>)
    requires
        builds_tracked(g),
        frames_shape(g),
        g.frames.last().work.len() == 0,
        !(g.frames.last().kind is Main),
    ensures
        builds_tracked(step_s(g, modules).0),
{
    let n = g.frames.len() as int;
    let top = g.frames.last();
    assert(top == g.frames[n - 1]);
    assert(n - 1 != 0);
    let g2 = step_s(g, modules).0;
    assert(g2.frames.len() == n - 1);
    assert(g2.frames[n - 2].kind == g.frames[n - 2].kind);
    assert(g2.frames[n - 2].work == g.frames[n - 2].work);
    assert forall|x: usize| #[trigger] g2.builds.contains(x) implies exists|i: int|
        0 <= i < g2.frames.len() && marks(g2.frames[i], x) by {
        if !(top.kind is Quotation) {
            lemma_without(g.builds, frame_id(top.kind)->0, x);
        }
        let i = choose|i: int| 0 <= i < g.frames.len() && marks(g.frames[i], x);
        if i == n - 1 {
            lemma_marks_idle(top, x);
        }
        if i == n - 2 {
            lemma_marks_kept(g.frames[i], g2.frames[i], x);
        } else {
            assert(g2.frames[i] == g.frames[i]);
        }
    }
}

/// A step that goes on keeps every mark tracked, and when the code of `main` is
/// done no definition is marked as being built any more.
pub proof fn lemma_step_tracked(g: GenModel, modules: Seq<ModuleAst>)
    requires
        builds_tracked(g),
        frames_shape(g),
    ensures
        (step_s(g, modules).1 is Continue || step_s(g, modules).1 is Execute) ==> builds_tracked(
            step_s(g, modules).0,
        ),
        step_s(g, modules).1 is Done ==> step_s(g, modules).0.builds.len() == 0,
{
    let (g2, out) = step_s(g, modules);
    let n = g.frames.len() as int;
    let top = g.frames.last();
    assert(top == g.frames[n - 1]);
    if top.work.len() == 0 {
        if let KindModel::Main(id) = top.kind {
            assert(n - 1 == 0);
            if g2.builds.len() > 0 {
                let x = g2.builds[0];
                assert(g2.builds.contains(x));
                lemma_without(g.builds, id, x);
                let i = choose|i: int| 0 <= i < g.frames.len() && marks(g.frames[i], x);
                lemma_marks_idle(top, x);
            }
        } else {
            lemma_finish_tracked(g, modules);
        }
    } else {
        match top.work.last() {
            WorkModel::Finish(id) => lemma_end_tracked(g, modules, id),
            WorkModel::Expr(e) => {
                if out is Continue || out is Execute {
                    lemma_rewrite_tracked(g, modules, e);
                }
            },
        }
    }
}

/// A `main` whose body is one byte constant is compiled in two steps to the code
/// of that byte, whatever the span of the constant.
pub proof fn lemma_constant_main(main: Definition, modules: Seq<ModuleAst>, b: u8, s: SpanModel)
    requires
        exprs_view(main.body@) == seq![ExprModel::Constant(b, s)],
    ensures
        step_s(initial_model(main), modules).1 == StepModel::Continue,
        step_s(step_s(initial_model(main), modules).0, modules).1 == StepModel::Done(
            dumb_code(b as nat),
        ),
{
    let g = initial_model(main);
    let e = ExprModel::Constant(b, s);
    assert(g.frames[0].work =~= seq![WorkModel::Expr(e)]);
    let g1 = step_s(g, modules).0;
    assert(g1.frames.len() == 1);
    assert(g1.frames[0].work.len() == 0);
    assert(g1.frames[0].stack =~= seq![e]);
    assert(g1.frames[0].kind == KindModel::Main(main.unique_id));
    let st = g1.frames[0].stack;
    assert(st.drop_last() =~= Seq::<ExprModel>::empty());
    assert(exprs_code(st.drop_last()) == Seq::<char>::empty());
    assert(st.last() == e);
    assert(expr_code(e) == dumb_code(b as nat));
    assert(exprs_code(st) == exprs_code(st.drop_last()) + expr_code(st.last()));
    assert(Seq::<char>::empty() + dumb_code(b as nat) =~= dumb_code(b as nat));
}

/// What a `==!` program printed goes on the stack of the frame that called it,
/// in the order it was printed: the stack below stays, and the `k`-th byte printed
/// is the `k`-th value pushed, a constant on the composition's span. The other
/// frames, the work and the kind of the top frame stay as they were.
pub proof fn lemma_resume_pushes_in_order(g: GenModel, bytes: Seq<u8>)
    requires
        g.frames.len() >= 1,
        g.awaiting is Constants,
    ensures
        ({
            let g2 = resume_s(g, bytes);
            let before = g.frames.last().stack;
            let after = g2.frames.last().stack;
            &&& g2.frames.len() == g.frames.len()
            &&& forall|i: int| 0 <= i < g.frames.len() - 1 ==> g2.frames[i] == g.frames[i]
            &&& g2.frames.last().work == g.frames.last().work
            &&& g2.frames.last().kind == g.frames.last().kind
            &&& after.len() == before.len() + bytes.len()
            &&& forall|i: int| 0 <= i < before.len() ==> after[i] == before[i]
            &&& forall|k: int|
                0 <= k < bytes.len() ==> after[before.len() + k] == ExprModel::Constant(
                    bytes[k],
                    g.awaiting->Constants_0,
                )
        }),
{
    let g2 = resume_s(g, bytes);
    assert(g2.frames.last() == g2.frames[g.frames.len() - 1]);
    assert forall|i: int| 0 <= i < g.frames.len() - 1 implies g2.frames[i] == g.frames[i] by {
        assert(g.frames.drop_last()[i] == g.frames[i]);
    }
}

/// What a `==?` program printed becomes one Brainfuck block on the stack of the
/// frame that called it: its `k`-th character is the `k`-th byte printed, and the
/// stack below stays.
pub proof fn lemma_resume_code_in_order(g: GenModel, bytes: Seq<u8>)
    requires
        g.frames.len() >= 1,
        g.awaiting is Code,
    ensures
        ({
            let g2 = resume_s(g, bytes);
            let before = g.frames.last().stack;
            let after = g2.frames.last().stack;
            &&& g2.frames.len() == g.frames.len()
            &&& after.len() == before.len() + 1
            &&& forall|i: int| 0 <= i < before.len() ==> after[i] == before[i]
            &&& after.last() is Brainfuck
            &&& after.last()->Brainfuck_1 == g.awaiting->Code_0
            &&& after.last()->Brainfuck_0.len() == bytes.len()
            &&& forall|k: int| 0 <= k < bytes.len() ==> (after.last()->Brainfuck_0[k] as u32) == bytes[k]
        }),
{
    let g2 = resume_s(g, bytes);
    assert(g2.frames.last() == g2.frames[g.frames.len() - 1]);
}

} // verus!
