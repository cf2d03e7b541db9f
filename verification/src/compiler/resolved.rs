//! Calls stay resolved during code generation: in a program that passed the
//! semantic analysis, every call that the generator meets names a definition it
//! can look up, so generation never fails on an unknown function.
use vstd::prelude::*;

use crate::compiler::ast::all_code;
use crate::compiler::ast::def_shape_ok;
use crate::compiler::ast::defs_view;
use crate::compiler::ast::entry_shape_ok;
use crate::compiler::ast::groups_shape_ok;
use crate::compiler::ast::groups_view;
use crate::compiler::ast::is_code;
use crate::compiler::ast::lookup_defs;
use crate::compiler::ast::group_defs;
use crate::compiler::ast::DefinitionGroup;
use crate::compiler::ast::ExprModel;
use crate::compiler::ast::ModuleAst;
use crate::compiler::ast::StackArg;
use crate::compiler::pattern::binding_of;
use crate::compiler::pattern::bound_value;
use crate::compiler::pattern::match_args;
use crate::compiler::pattern::pattern_bindings;
use crate::compiler::pattern::single_letter;
use crate::compiler::pattern::subst_expr;
use crate::compiler::pattern::subst_exprs;
use crate::compiler::semantic::all_calls_found;
use crate::compiler::semantic::calls_found;
use crate::compiler::semantic::def_calls_found;
use crate::compiler::semantic::is_pattern_letter;
use crate::compiler::semantic::modules_shape_ok;
use crate::compiler::semantic::program_calls_found;
use crate::span::SpanModel;
use crate::compiler::ast::Definition;
use crate::compiler::ast::exprs_view;
use crate::compiler::pattern::char_byte;
use crate::compiler::pattern::entry_name;
use crate::compiler::pattern::lemma_pattern_binds_names;
use crate::compiler::gen::applicable;
use crate::compiler::gen::body_work;
use crate::compiler::gen::def_bindings;
use crate::compiler::gen::frames_shape;
use crate::compiler::gen::initial_model;
use crate::compiler::gen::last_applicable;
use crate::compiler::gen::resume_s;
use crate::compiler::gen::rewrite_s;
use crate::compiler::gen::stack_values;
use crate::compiler::gen::step_s;
use crate::compiler::gen::without_last_work;
use crate::compiler::gen::FailModel;
use crate::compiler::gen::FrameModel;
use crate::compiler::gen::GenModel;
use crate::compiler::gen::StepModel;
use crate::compiler::gen::WorkModel;

verus! {

/// Code finds all its calls: it has none.
proof fn lemma_code_found(modules: Seq<ModuleAst>, st: Option<(Seq<StackArg>, SpanModel)>, e: ExprModel)
    requires
        is_code(e),
    ensures
        calls_found(modules, st, e),
    decreases e,
{
    if let ExprModel::Quotation(es, _) = e {
        lemma_all_code_found(modules, st, es);
    }
}

proof fn lemma_all_code_found(modules: Seq<ModuleAst>, st: Option<(Seq<StackArg>, SpanModel)>, es: Seq<ExprModel>)
    requires
        all_code(es),
    ensures
        all_calls_found(modules, st, es),
    decreases es,
{
    if es.len() > 0 {
        lemma_all_code_found(modules, st, es.drop_last());
        lemma_code_found(modules, st, es.last());
    }
}

/// Every value of the bindings is code.
pub open spec fn bindings_code(bs: Seq<(char, ExprModel)>) -> bool {
    forall|k: int| 0 <= k < bs.len() ==> #[trigger] is_code(bs[k].1)
}

proof fn lemma_binding_code(bs: Seq<(char, ExprModel)>, c: char)
    requires
        bindings_code(bs),
    ensures
        binding_of(bs, c) matches Some(v) ==> is_code(v),
    decreases bs.len(),
{
    if bs.len() > 0 {
        assert(is_code(bs[0].1));
        if bs[0].0 != c {
            assert forall|k: int| 0 <= k < bs.drop_first().len() implies #[trigger] is_code(bs.drop_first()[k].1) by {
                assert(bs.drop_first()[k] == bs[k + 1]);
            }
            lemma_binding_code(bs.drop_first(), c);
        }
    }
}

/// Each letter of the stack pattern is bound, and is an ASCII character.
pub open spec fn letters_bound(st: Option<(Seq<StackArg>, SpanModel)>, bs: Seq<(char, ExprModel)>) -> bool {
    forall|c: char| #[trigger] is_pattern_letter(st, seq![c]) ==> binding_of(bs, c) is Some && (c as u32) < 128
}

/// Substituting the letters of a body whose calls are found leaves only calls
/// that lookups find.
proof fn lemma_subst_found(
    modules: Seq<ModuleAst>,
    st: Option<(Seq<StackArg>, SpanModel)>,
    bs: Seq<(char, ExprModel)>,
    e: ExprModel,
)
    requires
        calls_found(modules, st, e),
        letters_bound(st, bs),
        bindings_code(bs),
    ensures
        calls_found(modules, None, subst_expr(bs, e)),
    decreases e,
{
    match e {
        ExprModel::Function(m, n, _) => {
            match single_letter(m, n) {
                Some(c) => {
                    lemma_binding_code(bs, c);
                    match binding_of(bs, c) {
                        Some(v) => lemma_code_found(modules, None, v),
                        None => {
                            if !(lookup_defs(modules, m, n) is Some) {
                                assert(n =~= seq![n[0]]);
                                assert(is_pattern_letter(st, seq![c]));
                            }
                        },
                    }
                },
                None => {
                    if !(lookup_defs(modules, m, n) is Some) {
                        let args = match st {
                            Some((a, _)) => a,
                            None => Seq::empty(),
                        };
                        let i = choose|i: int|
                            0 <= i < args.len() && match #[trigger] args[i] {
                                StackArg::Position(c, _) => n == seq![c],
                                StackArg::Qoutation(c, _) => n == seq![c],
                                _ => false,
                            };
                        match args[i] {
                            StackArg::Position(c, _) => {
                                assert(is_pattern_letter(st, seq![c]));
                            },
                            StackArg::Qoutation(c, _) => {
                                assert(is_pattern_letter(st, seq![c]));
                            },
                            _ => {},
                        }
                    }
                },
            }
        },
        ExprModel::Quotation(es, _) => {
            lemma_subst_all_found(modules, st, bs, es);
        },
        _ => {},
    }
}

proof fn lemma_subst_all_found(
    modules: Seq<ModuleAst>,
    st: Option<(Seq<StackArg>, SpanModel)>,
    bs: Seq<(char, ExprModel)>,
    es: Seq<ExprModel>,
)
    requires
        all_calls_found(modules, st, es),
        letters_bound(st, bs),
        bindings_code(bs),
    ensures
        all_calls_found(modules, None, subst_exprs(bs, es)),
    decreases es,
{
    if es.len() > 0 {
        lemma_subst_all_found(modules, st, bs, es.drop_last());
        lemma_subst_found(modules, st, bs, es.last());
        assert(subst_exprs(bs, es).drop_last() =~= subst_exprs(bs, es.drop_last()));
    }
}

/// An expression of a list whose calls are found has its calls found.
proof fn lemma_all_found_index(modules: Seq<ModuleAst>, st: Option<(Seq<StackArg>, SpanModel)>, es: Seq<ExprModel>, k: int)
    requires
        all_calls_found(modules, st, es),
        0 <= k < es.len(),
    ensures
        calls_found(modules, st, es[k]),
    decreases es.len(),
{
    if k < es.len() - 1 {
        lemma_all_found_index(modules, st, es.drop_last(), k);
    }
}

/// A pattern without letters leaves calls as they are found.
proof fn lemma_found_no_letters(modules: Seq<ModuleAst>, st: Option<(Seq<StackArg>, SpanModel)>, e: ExprModel)
    requires
        calls_found(modules, st, e),
        forall|n: Seq<char>| !#[trigger] is_pattern_letter(st, n),
    ensures
        calls_found(modules, None, e),
    decreases e,
{
    match e {
        ExprModel::Quotation(es, _) => lemma_all_found_no_letters(modules, st, es),
        ExprModel::Function(m, n, _) => {
            assert(!is_pattern_letter(st, n));
        },
        _ => {},
    }
}

proof fn lemma_all_found_no_letters(modules: Seq<ModuleAst>, st: Option<(Seq<StackArg>, SpanModel)>, es: Seq<ExprModel>)
    requires
        all_calls_found(modules, st, es),
        forall|n: Seq<char>| !#[trigger] is_pattern_letter(st, n),
    ensures
        all_calls_found(modules, None, es),
    decreases es,
{
    if es.len() > 0 {
        lemma_all_found_no_letters(modules, st, es.drop_last());
        lemma_found_no_letters(modules, st, es.last());
    }
}

/// The definitions a lookup finds are a group of one of the modules.
proof fn lemma_lookup_group(modules: Seq<ModuleAst>, m: Seq<char>, n: Seq<char>)
    ensures
        lookup_defs(modules, m, n) matches Some(defs) ==> exists|i: int, g: int|
            0 <= i < modules.len() && 0 <= g < modules[i].definitions@.len() && #[trigger] modules[i].definitions@[g].defs@
                == defs,
    decreases modules.len(),
{
    if modules.len() > 0 {
        if modules[0].name@ == m {
            lemma_group_defs_group(modules[0].definitions@, n);
            if let Some(defs) = group_defs(modules[0].definitions@, n) {
                let g = choose|g: int| 0 <= g < modules[0].definitions@.len() && #[trigger] modules[0].definitions@[g].defs@ == defs;
                assert(modules[0].definitions@[g].defs@ == defs);
            }
        } else {
            lemma_lookup_group(modules.drop_first(), m, n);
            if let Some(defs) = lookup_defs(modules, m, n) {
                let (i, g) = choose|i: int, g: int|
                    0 <= i < modules.drop_first().len() && 0 <= g < modules.drop_first()[i].definitions@.len()
                        && #[trigger] modules.drop_first()[i].definitions@[g].defs@ == defs;
                assert(modules[i + 1] == modules.drop_first()[i]);
                assert(modules[i + 1].definitions@[g].defs@ == defs);
            }
        }
    }
}

proof fn lemma_group_defs_group(groups: Seq<DefinitionGroup>, n: Seq<char>)
    ensures
        group_defs(groups, n) matches Some(defs) ==> exists|g: int| 0 <= g < groups.len() && #[trigger] groups[g].defs@ == defs,
    decreases groups.len(),
{
    if groups.len() > 0 {
        if groups[0].name@ != n {
            lemma_group_defs_group(groups.drop_first(), n);
            if let Some(defs) = group_defs(groups, n) {
                let g = choose|g: int| 0 <= g < groups.drop_first().len() && #[trigger] groups.drop_first()[g].defs@ == defs;
                assert(groups[g + 1] == groups.drop_first()[g]);
                assert(groups[g + 1].defs@ == defs);
            }
        } else {
            assert(groups[0].defs@ == groups[0].defs@);
        }
    }
}

/// A definition a lookup finds in a program whose calls are found, and whose
/// definitions have their shapes, has its calls found and its shape.
pub proof fn lemma_looked_up_def(modules: Seq<ModuleAst>, m: Seq<char>, n: Seq<char>, j: int)
    requires
        program_calls_found(modules),
        modules_shape_ok(modules),
        lookup_defs(modules, m, n) is Some,
        0 <= j < lookup_defs(modules, m, n)->0.len(),
    ensures
        def_calls_found(modules, lookup_defs(modules, m, n)->0[j]@),
        def_shape_ok(lookup_defs(modules, m, n)->0[j]@),
{
    let defs = lookup_defs(modules, m, n)->0;
    lemma_lookup_group(modules, m, n);
    let (i, g) = choose|i: int, g: int|
        0 <= i < modules.len() && 0 <= g < modules[i].definitions@.len() && #[trigger] modules[i].definitions@[g].defs@ == defs;
    let gv = groups_view(modules[i].definitions@);
    assert(modules[i].definitions@[g].defs@ == defs);
    assert(gv[g].1 == defs_view(defs));
    assert(gv[g].1[j] == defs[j]@);
    assert(def_calls_found(modules, gv[g].1[j]));
    assert(groups_shape_ok(gv));
    assert(def_shape_ok(gv[g].1[j]));
}

/// Every bound value is a constant or a Brainfuck block.
pub open spec fn bindings_values(bs: Seq<(char, ExprModel)>) -> bool {
    forall|k: int| 0 <= k < bs.len() ==> (#[trigger] bs[k].1 is Constant || bs[k].1 is Brainfuck)
}

proof fn lemma_push_value(bs: Seq<(char, ExprModel)>, c: char, e: ExprModel)
    requires
        bindings_values(bs),
        e is Constant || e is Brainfuck,
    ensures
        bindings_values(bs.push((c, e))),
{
    assert forall|k: int| 0 <= k < bs.len() + 1 implies (#[trigger] bs.push((c, e))[k].1 is Constant || bs.push(
        (c, e),
    )[k].1 is Brainfuck) by {
        if k < bs.len() {
            assert(bs.push((c, e))[k] == bs[k]);
        }
    }
}

/// A match binds values of the stack.
proof fn lemma_match_values(stack: Seq<ExprModel>, args: Seq<StackArg>, i: int, bs: Seq<(char, ExprModel)>)
    requires
        stack_values(stack),
        bindings_values(bs),
        match_args(stack, args, i, bs) is Some,
    ensures
        bindings_values(match_args(stack, args, i, bs)->0),
    decreases args.len() - i,
{
    if 0 <= i < args.len() && i < stack.len() {
        let e = stack[stack.len() - 1 - i];
        assert(e is Constant || e is Brainfuck);
        match (e, args[i]) {
            (ExprModel::Constant(_, _), StackArg::Position(c, _)) => {
                if binding_of(bs, c) is None {
                    lemma_push_value(bs, c, e);
                    lemma_match_values(stack, args, i + 1, bs.push((c, e)));
                } else {
                    lemma_match_values(stack, args, i + 1, bs);
                }
            },
            (ExprModel::Brainfuck(_, _), StackArg::Qoutation(c, _)) => {
                if binding_of(bs, c) is None {
                    lemma_push_value(bs, c, e);
                    lemma_match_values(stack, args, i + 1, bs.push((c, e)));
                } else {
                    lemma_match_values(stack, args, i + 1, bs);
                }
            },
            _ => {
                lemma_match_values(stack, args, i + 1, bs);
            },
        }
    }
}

proof fn lemma_constants_code(es: Seq<ExprModel>)
    requires
        forall|k: int| 0 <= k < es.len() ==> #[trigger] es[k] is Constant,
    ensures
        all_code(es),
    decreases es.len(),
{
    if es.len() > 0 {
        assert forall|k: int| 0 <= k < es.drop_last().len() implies #[trigger] es.drop_last()[k] is Constant by {
            assert(es.drop_last()[k] == es[k]);
        }
        lemma_constants_code(es.drop_last());
        assert(es[es.len() - 1] is Constant);
        assert(es.last() == es[es.len() - 1]);
        assert(is_code(es.last()));
    }
}

/// The values a pattern binds are code.
proof fn lemma_pattern_bindings_code(stack: Seq<ExprModel>, args: Seq<StackArg>)
    requires
        stack_values(stack),
        pattern_bindings(stack, args) is Some,
    ensures
        bindings_code(pattern_bindings(stack, args)->0),
{
    lemma_match_values(stack, args, 0, Seq::empty());
    let bs = match_args(stack, args, 0, Seq::empty())->0;
    let r = pattern_bindings(stack, args)->0;
    assert forall|k: int| 0 <= k < r.len() implies #[trigger] is_code(r[k].1) by {
        assert(r[k].1 == bound_value(bs[k].1));
        assert(bs[k].1 is Constant || bs[k].1 is Brainfuck);
        if let ExprModel::Brainfuck(b, sp) = bs[k].1 {
            let es = seq![ExprModel::Constant(0, sp)] + Seq::new(
                b.len(),
                |x: int| ExprModel::Constant(char_byte(b[x]), sp),
            );
            assert forall|x: int| 0 <= x < es.len() implies #[trigger] es[x] is Constant by {
                if x > 0 {
                    assert(es[x] == ExprModel::Constant(char_byte(b[x - 1]), sp));
                }
            }
            lemma_constants_code(es);
        }
    }
}

/// The bindings a definition gets on a stack where it can be used are code, and
/// bind each letter of its pattern.
proof fn lemma_def_bindings(d: Definition, builds: Seq<usize>, stack: Seq<ExprModel>)
    requires
        applicable(d, builds, stack),
        stack_values(stack),
        def_shape_ok(d@),
    ensures
        bindings_code(def_bindings(d, stack)),
        letters_bound(d@.stack, def_bindings(d, stack)),
{
    if let Some(p) = d.stack {
        let args = p.args@;
        lemma_pattern_bindings_code(stack, args);
        let bs = def_bindings(d, stack);
        assert forall|c: char| #[trigger] is_pattern_letter(d@.stack, seq![c]) implies binding_of(bs, c) is Some && (c
            as u32) < 128 by {
            let i = choose|i: int|
                0 <= i < args.len() && match #[trigger] args[i] {
                    StackArg::Position(x, _) => seq![c] == seq![x],
                    StackArg::Qoutation(x, _) => seq![c] == seq![x],
                    _ => false,
                };
            match args[i] {
                StackArg::Position(x, _) => {
                    assert(seq![c][0] == seq![x][0]);
                },
                StackArg::Qoutation(x, _) => {
                    assert(seq![c][0] == seq![x][0]);
                },
                _ => {},
            }
            assert(entry_name(args[i]) == Some(c));
            lemma_pattern_binds_names(stack, args, i);
            assert(entry_shape_ok(d.typ, args[i]));
        }
    }
}

/// A work entry left to do: an expression whose calls lookups find.
pub open spec fn work_found(modules: Seq<ModuleAst>, w: WorkModel) -> bool {
    match w {
        WorkModel::Expr(e) => calls_found(modules, None, e),
        WorkModel::Finish(_) => true,
    }
}

/// Every work entry of the frame is found, and its bindings are code.
pub open spec fn frame_found(modules: Seq<ModuleAst>, f: FrameModel) -> bool {
    &&& forall|k: int| 0 <= k < f.work.len() ==> #[trigger] work_found(modules, f.work[k])
    &&& bindings_code(f.bindings)
}

/// Every frame of the generator is found: every call it will meet is found by a
/// lookup in `modules`.
pub open spec fn gen_found(modules: Seq<ModuleAst>, g: GenModel) -> bool {
    forall|i: int| 0 <= i < g.frames.len() ==> #[trigger] frame_found(modules, g.frames[i])
}

proof fn lemma_body_work_found(modules: Seq<ModuleAst>, body: Seq<ExprModel>)
    requires
        all_calls_found(modules, None, body),
    ensures
        forall|k: int| 0 <= k < body_work(body).len() ==> #[trigger] work_found(modules, body_work(body)[k]),
{
    assert forall|k: int| 0 <= k < body_work(body).len() implies #[trigger] work_found(modules, body_work(body)[k]) by {
        lemma_all_found_index(modules, None, body, body.len() - 1 - k);
    }
}

proof fn lemma_last_applicable(defs: Seq<Definition>, builds: Seq<usize>, stack: Seq<ExprModel>, k: int)
    ensures
        last_applicable(defs, builds, stack, k) matches Some(j) ==> 0 <= j < defs.len() && applicable(
            defs[j],
            builds,
            stack,
        ),
    decreases k,
{
    if 0 < k <= defs.len() && !applicable(defs[k - 1], builds, stack) {
        lemma_last_applicable(defs, builds, stack, k - 1);
    }
}

/// A generator whose every call is found, in a program whose calls are found and
/// whose definitions have their shapes, keeps that property with each step, and a
/// step never fails on an unknown function.
pub proof fn lemma_step_found(g: GenModel, modules: Seq<ModuleAst>)
    requires
        program_calls_found(modules),
        modules_shape_ok(modules),
        gen_found(modules, g),
        frames_shape(g),
    ensures
        gen_found(modules, step_s(g, modules).0),
        !(step_s(g, modules).1 matches StepModel::Failed(FailModel::UnknownFunction(_, _, _))),
{
    let top = g.frames.last();
    let rest = g.frames.drop_last();
    let n = g.frames.len();
    assert(frame_found(modules, g.frames[n - 1]));
    assert forall|i: int| 0 <= i < rest.len() implies #[trigger] frame_found(modules, rest[i]) by {
        assert(rest[i] == g.frames[i]);
    }
    if top.work.len() == 0 {
        if !(top.kind is Main) {
            assert(g.frames[n - 1].kind is Main <==> n - 1 == 0);
            assert(frame_found(modules, rest[rest.len() - 1]));
        }
        let next = step_s(g, modules).0.frames;
        assert forall|i: int| 0 <= i < next.len() implies #[trigger] frame_found(modules, next[i]) by {
            if i < rest.len() - 1 {
                assert(next[i] == rest[i]);
            }
        }
    } else {
        let f = without_last_work(top);
        assert forall|k: int| 0 <= k < f.work.len() implies #[trigger] work_found(modules, f.work[k]) by {
            assert(f.work[k] == top.work[k]);
        }
        assert(frame_found(modules, f));
        assert(work_found(modules, top.work[top.work.len() - 1]));
        match top.work.last() {
            WorkModel::Finish(id) => {
                let next = step_s(g, modules).0.frames;
                assert forall|i: int| 0 <= i < next.len() implies #[trigger] frame_found(modules, next[i]) by {
                    if i < rest.len() {
                        assert(next[i] == rest[i]);
                    }
                }
            },
            WorkModel::Expr(e) => {
                lemma_rewrite_found(g, rest, f, e, modules);
            },
        }
    }
}

proof fn lemma_rewrite_found(g: GenModel, rest: Seq<FrameModel>, f: FrameModel, e: ExprModel, modules: Seq<ModuleAst>)
    requires
        program_calls_found(modules),
        modules_shape_ok(modules),
        forall|i: int| 0 <= i < rest.len() ==> #[trigger] frame_found(modules, rest[i]),
        frame_found(modules, f),
        stack_values(f.stack),
        calls_found(modules, None, e),
    ensures
        gen_found(modules, rewrite_s(g, rest, f, e, modules).0),
        !(rewrite_s(g, rest, f, e, modules).1 matches StepModel::Failed(FailModel::UnknownFunction(_, _, _))),
{
    let next = rewrite_s(g, rest, f, e, modules).0.frames;
    match e {
        ExprModel::Function(m, n, s) => {
            assert(!is_pattern_letter(None, n));
            let defs = lookup_defs(modules, m, n)->0;
            lemma_last_applicable(defs, g.builds, f.stack, defs.len() as int);
            if let Some(j) = last_applicable(defs, g.builds, f.stack, defs.len() as int) {
                let d = defs[j];
                lemma_looked_up_def(modules, m, n, j);
                lemma_def_bindings(d, g.builds, f.stack);
                let st = d@.stack;
                let body = exprs_view(d.body@);
                let bs = def_bindings(d, f.stack);
                assert(all_calls_found(modules, st, body));
                lemma_subst_all_found(modules, st, bs, body);
                lemma_body_work_found(modules, subst_exprs(bs, body));
                if d.typ is Function {
                    assert forall|x: Seq<char>| !#[trigger] is_pattern_letter(st, x) by {
                        if let Some((args, _)) = st {
                            assert forall|i: int| 0 <= i < args.len() implies !(match #[trigger] args[i] {
                                StackArg::Position(c, _) => x == seq![c],
                                StackArg::Qoutation(c, _) => x == seq![c],
                                _ => false,
                            }) by {
                                assert(entry_shape_ok(d.typ, args[i]));
                            }
                        }
                    }
                    lemma_all_found_no_letters(modules, st, body);
                    lemma_body_work_found(modules, body);
                }
                assert forall|i: int| 0 <= i < next.len() implies #[trigger] frame_found(modules, next[i]) by {
                    if i < rest.len() {
                        assert(next[i] == rest[i]);
                    } else if i == rest.len() {
                        let w = next[i].work;
                        assert forall|k: int| 0 <= k < w.len() implies #[trigger] work_found(modules, w[k]) by {
                            if k < f.work.len() {
                                assert(w[k] == f.work[k]);
                            }
                        }
                    }
                }
            } else {
                assert forall|i: int| 0 <= i < next.len() implies #[trigger] frame_found(modules, next[i]) by {
                    assert(next[i] == rest[i]);
                }
            }
        },
        ExprModel::Quotation(q, s) => {
            lemma_subst_all_found(modules, None, f.bindings, q);
            lemma_body_work_found(modules, subst_exprs(f.bindings, q));
            assert forall|i: int| 0 <= i < next.len() implies #[trigger] frame_found(modules, next[i]) by {
                if i < rest.len() {
                    assert(next[i] == rest[i]);
                }
            }
        },
        _ => {
            assert forall|i: int| 0 <= i < next.len() implies #[trigger] frame_found(modules, next[i]) by {
                if i < rest.len() {
                    assert(next[i] == rest[i]);
                }
            }
        },
    }
}

/// Handing back a program's output keeps every call found.
pub proof fn lemma_resume_found(g: GenModel, modules: Seq<ModuleAst>, bytes: Seq<u8>)
    requires
        gen_found(modules, g),
        g.frames.len() >= 1,
    ensures
        gen_found(modules, resume_s(g, bytes)),
{
    let next = resume_s(g, bytes).frames;
    assert forall|i: int| 0 <= i < next.len() implies #[trigger] frame_found(modules, next[i]) by {
        assert(frame_found(modules, g.frames[i]));
    }
}

/// The generator for a `main` without a pattern whose calls are found has every
/// call found.
pub proof fn lemma_initial_found(modules: Seq<ModuleAst>, main: Definition)
    requires
        main.stack is None,
        def_calls_found(modules, main@),
    ensures
        gen_found(modules, initial_model(main)),
{
    lemma_body_work_found(modules, exprs_view(main.body@));
    assert(bindings_code(Seq::<(char, ExprModel)>::empty()));
    assert(frame_found(modules, initial_model(main).frames[0]));
}

/// A definition of a group of a program whose calls are found has its calls
/// found.
pub proof fn lemma_group_def_found(modules: Seq<ModuleAst>, i: int, name: Seq<char>, j: int)
    requires
        program_calls_found(modules),
        0 <= i < modules.len(),
        group_defs(modules[i].definitions@, name) is Some,
        0 <= j < group_defs(modules[i].definitions@, name)->0.len(),
    ensures
        def_calls_found(modules, group_defs(modules[i].definitions@, name)->0[j]@),
{
    let defs = group_defs(modules[i].definitions@, name)->0;
    lemma_group_defs_group(modules[i].definitions@, name);
    let g = choose|g: int| 0 <= g < modules[i].definitions@.len() && #[trigger] modules[i].definitions@[g].defs@ == defs;
    let gv = groups_view(modules[i].definitions@);
    assert(modules[i].definitions@[g].defs@ == defs);
    assert(gv[g].1 == defs_view(defs));
    assert(gv[g].1[j] == defs[j]@);
    assert(def_calls_found(modules, gv[g].1[j]));
}

} // verus!
