//! Matching stack patterns against the compile-time stack, and substituting the
//! values bound by a match into a definition body.
use vstd::prelude::*;

use crate::compiler::ast::exprs_view;
use crate::compiler::ast::lemma_exprs_view_push;
use crate::compiler::ast::lemma_exprs_view_len;
use crate::compiler::ast::lemma_exprs_view_index;
use crate::compiler::ast::lemma_quotation_decreases;
use crate::compiler::ast::ExprModel;
use crate::compiler::ast::Expression;
use crate::compiler::ast::StackArg;
use crate::compiler::ast::StackArgs;
use crate::span::Span;
use crate::span::SpanModel;
use vstd::string::StrSliceExecFns;

verus! {

/// The value bound to `c`, the first binding of `c` in the list.
pub open spec fn binding_of(bs: Seq<(char, ExprModel)>, c: char) -> Option<ExprModel>
    decreases bs.len(),
{
    if bs.len() == 0 {
        None
    } else if bs[0].0 == c {
        Some(bs[0].1)
    } else {
        binding_of(bs.drop_first(), c)
    }
}

/// The models of a list of bindings.
pub open spec fn binds_view(v: Seq<(char, Expression)>) -> Seq<(char, ExprModel)> {
    Seq::new(v.len(), |i: int| (v[i].0, v[i].1@))
}

/// The name of a call that a binding can replace: an unqualified name of one
/// ASCII character.
pub open spec fn single_letter(module: Seq<char>, name: Seq<char>) -> Option<char> {
    if module.len() == 0 && name.len() == 1 && (name[0] as u32) < 128 {
        Some(name[0])
    } else {
        None
    }
}

/// Replaces, at any depth, each call of a bound letter by the letter's value.
pub open spec fn subst_expr(bs: Seq<(char, ExprModel)>, e: ExprModel) -> ExprModel
    decreases e,
{
    match e {
        ExprModel::Function(m, n, _) => match single_letter(m, n) {
            Some(c) => match binding_of(bs, c) {
                Some(v) => v,
                None => e,
            },
            None => e,
        },
        ExprModel::Quotation(es, s) => ExprModel::Quotation(subst_exprs(bs, es), s),
        _ => e,
    }
}

/// [`subst_expr`] on each expression of a list.
pub open spec fn subst_exprs(bs: Seq<(char, ExprModel)>, es: Seq<ExprModel>) -> Seq<ExprModel>
    decreases es,
{
    if es.len() == 0 {
        Seq::empty()
    } else {
        subst_exprs(bs, es.drop_last()).push(subst_expr(bs, es.last()))
    }
}

/// Looks `c` up in the bindings.
fn find_binding<'a>(bindings: &'a Vec<(char, Expression)>, c: char) -> (r: Option<&'a Expression>)
    ensures
        binding_of(binds_view(bindings@), c) == (match r {
            Some(e) => Some(e@),
            None => None::<ExprModel>,
        }),
{
    let mut k: usize = 0;
    assert(binds_view(bindings@).subrange(0, bindings@.len() as int) =~= binds_view(bindings@));
    while k < bindings.len()
        invariant
            k <= bindings@.len(),
            binding_of(binds_view(bindings@), c) == binding_of(
                binds_view(bindings@).subrange(k as int, bindings@.len() as int),
                c,
            ),
        decreases bindings@.len() - k,
    {
        let ghost rest = binds_view(bindings@).subrange(k as int, bindings@.len() as int);
        assert(rest.drop_first() =~= binds_view(bindings@).subrange(k + 1, bindings@.len() as int));
        if bindings[k].0 == c {
            return Some(&bindings[k].1);
        }
        k = k + 1;
    }
    None
}

proof fn lemma_subst_exprs_len(bs: Seq<(char, ExprModel)>, es: Seq<ExprModel>)
    ensures
        subst_exprs(bs, es).len() == es.len(),
    decreases es.len(),
{
    if es.len() > 0 {
        lemma_subst_exprs_len(bs, es.drop_last());
    }
}

/// Replaces every stack constraint in the expressions with its value: a call of a
/// bound single-letter name becomes a copy of the bound value, inside quotations
/// too.
pub fn apply_constraints(bindings: &Vec<(char, Expression)>, expressions: &[Expression]) -> (r: Vec<
    Expression,
>)
    ensures
        exprs_view(r@) == subst_exprs(binds_view(bindings@), exprs_view(expressions@)),
    decreases expressions@,
{
    let ghost bs = binds_view(bindings@);
    let mut result: Vec<Expression> = Vec::new();
    let mut k: usize = 0;
    assert(exprs_view(expressions@.subrange(0, 0)) =~= Seq::<ExprModel>::empty());
    assert(exprs_view(result@) =~= Seq::<ExprModel>::empty());
    while k < expressions.len()
        invariant
            k <= expressions@.len(),
            bs == binds_view(bindings@),
            exprs_view(result@) == subst_exprs(
                bs,
                exprs_view(expressions@.subrange(0, k as int)),
            ),
        decreases expressions@.len() - k,
    {
        let expr = &expressions[k];
        let next = match expr {
            Expression::Function(module, name, _) => {
                let mut replaced: Option<Expression> = None;
                if module.unicode_len() == 0 && name.unicode_len() == 1 {
                    let c = name.as_str().get_char(0);
                    if (c as u32) < 128 {
                        match find_binding(bindings, c) {
                            Some(v) => {
                                replaced = Some(v.duplicate());
                            },
                            None => {},
                        }
                    }
                }
                let out = match replaced {
                    Some(v) => v,
                    None => expr.duplicate(),
                };
                assert(out@ == subst_expr(bs, expr@));
                out
            },
            Expression::Quotation(inner, span) => {
                proof {
                    lemma_quotation_decreases(*expr);
                    assert(decreases_to!(expressions@ => expressions@[k as int]));
                    assert(decreases_to!(*inner => inner@)) by {
                        broadcast use vstd::std_specs::vec::axiom_vec_decreases_to_view;
                    }
                }
                let inner_result = apply_constraints(bindings, inner.as_slice());
                Expression::Quotation(inner_result, *span)
            },
            _ => expr.duplicate(),
        };
        assert(next@ == subst_expr(bs, expressions@[k as int]@));
        let ghost pre = expressions@.subrange(0, k as int);
        let ghost post = expressions@.subrange(0, k + 1);
        proof {
            assert(post =~= pre.push(expressions@[k as int]));
            lemma_exprs_view_push(pre, expressions@[k as int]);
            lemma_exprs_view_push(result@, next);
            let sp = exprs_view(post);
            assert(sp.drop_last() =~= exprs_view(pre));
            assert(sp.last() == expressions@[k as int]@);
            assert(subst_exprs(bs, sp) == subst_exprs(bs, sp.drop_last()).push(subst_expr(bs, sp.last())));
        }
        result.push(next);
        k = k + 1;
    }
    assert(expressions@.subrange(0, k as int) =~= expressions@);
    result
}

/// Matches the pattern `args`, from entry `i` on, against the stack (entry `k` of the
/// pattern is matched against the `k`-th value from the top), extending the
/// bindings `bs`. A lowercase name binds a constant, an uppercase name binds a
/// Brainfuck block, and a name that is bound already must meet an equal value.
pub open spec fn match_args(
    stack: Seq<ExprModel>,
    args: Seq<StackArg>,
    i: int,
    bs: Seq<(char, ExprModel)>,
) -> Option<Seq<(char, ExprModel)>>
    decreases args.len() - i,
{
    if i < 0 || i >= args.len() {
        Some(bs)
    } else if i >= stack.len() {
        None
    } else {
        let e = stack[stack.len() - 1 - i];
        match (e, args[i]) {
            (ExprModel::Constant(a, _), StackArg::Position(c, _)) => match binding_of(bs, c) {
                Some(ExprModel::Constant(b, _)) => if a == b {
                    match_args(stack, args, i + 1, bs)
                } else {
                    None
                },
                Some(_) => None,
                None => match_args(stack, args, i + 1, bs.push((c, e))),
            },
            (ExprModel::Constant(a, _), StackArg::Byte(b)) => if a == b {
                match_args(stack, args, i + 1, bs)
            } else {
                None
            },
            (ExprModel::Constant(_, _), StackArg::IgnoredConstant) => match_args(
                stack,
                args,
                i + 1,
                bs,
            ),
            (ExprModel::Brainfuck(b, _), StackArg::Qoutation(c, _)) => match binding_of(bs, c) {
                Some(ExprModel::Brainfuck(t, _)) => if t == b {
                    match_args(stack, args, i + 1, bs)
                } else {
                    None
                },
                Some(_) => None,
                None => match_args(stack, args, i + 1, bs.push((c, e))),
            },
            (ExprModel::Brainfuck(_, _), StackArg::IgnoredQoutation) => match_args(
                stack,
                args,
                i + 1,
                bs,
            ),
            _ => None,
        }
    }
}

/// The byte a character of a Brainfuck block becomes: its code point, truncated
/// to 8 bits.
pub open spec fn char_byte(c: char) -> u8 {
    (c as u32 % 256) as u8
}

/// A bound Brainfuck block becomes a string quotation: a 0 byte and then one
/// constant per character, all on the block's span. A bound constant stays.
pub open spec fn bound_value(e: ExprModel) -> ExprModel {
    match e {
        ExprModel::Brainfuck(b, s) => ExprModel::Quotation(
            seq![ExprModel::Constant(0, s)] + Seq::new(
                b.len(),
                |k: int| ExprModel::Constant(char_byte(b[k]), s),
            ),
            s,
        ),
        _ => e,
    }
}

/// The bindings a successful match of `args` on `stack` produces.
pub open spec fn pattern_bindings(stack: Seq<ExprModel>, args: Seq<StackArg>) -> Option<
    Seq<(char, ExprModel)>,
> {
    match match_args(stack, args, 0, Seq::empty()) {
        Some(bs) => Some(Seq::new(bs.len(), |k: int| (bs[k].0, bound_value(bs[k].1)))),
        None => None,
    }
}

/// The stack value that the `i`-th entry of a pattern of `args` faces.
pub open spec fn faced(stack: Seq<ExprModel>, i: int) -> ExprModel {
    stack[stack.len() - 1 - i]
}

/// Binding a new letter keeps the earlier bindings and finds the new one where
/// none was.
proof fn lemma_binding_push(bs: Seq<(char, ExprModel)>, x: (char, ExprModel), c: char)
    ensures
        binding_of(bs, c) is Some ==> binding_of(bs.push(x), c) == binding_of(bs, c),
        binding_of(bs, c) is None ==> binding_of(bs.push(x), c) == (if x.0 == c {
            Some(x.1)
        } else {
            None
        }),
    decreases bs.len(),
{
    if bs.len() > 0 {
        assert(bs.push(x).drop_first() =~= bs.drop_first().push(x));
        lemma_binding_push(bs.drop_first(), x, c);
    } else {
        assert(bs.push(x).drop_first() =~= Seq::<(char, ExprModel)>::empty());
        assert(binding_of(bs.push(x).drop_first(), c) is None);
        assert(bs.push(x)[0] == x);
    }
}

/// From entry `i` on, a successful match sees, at every entry with a letter that
/// `bs` binds, a value equal to the bound one (the same byte, or the same
/// Brainfuck text); and at two entries with one letter, equal values.
proof fn lemma_match_args_consistent(
    stack: Seq<ExprModel>,
    args: Seq<StackArg>,
    i: int,
    bs: Seq<(char, ExprModel)>,
)
    requires
        0 <= i <= args.len(),
        match_args(stack, args, i, bs) is Some,
    ensures
        forall|j: int|
            i <= j < args.len() && #[trigger] args[j] is Qoutation && binding_of(bs, args[j]->Qoutation_0)
                is Some && binding_of(bs, args[j]->Qoutation_0)->0 is Brainfuck ==> faced(stack, j)
                is Brainfuck && faced(stack, j)->Brainfuck_0 == binding_of(
                bs,
                args[j]->Qoutation_0,
            )->0->Brainfuck_0,
        forall|j: int|
            i <= j < args.len() && #[trigger] args[j] is Position && binding_of(bs, args[j]->Position_0)
                is Some && binding_of(bs, args[j]->Position_0)->0 is Constant ==> faced(stack, j)
                is Constant && faced(stack, j)->Constant_0 == binding_of(
                bs,
                args[j]->Position_0,
            )->0->Constant_0,
        forall|p: int, q: int|
            i <= p < q < args.len() && #[trigger] args[p] is Qoutation && #[trigger] args[q] is Qoutation
                && args[p]->Qoutation_0 == args[q]->Qoutation_0 ==> faced(stack, p) is Brainfuck && faced(
                stack,
                q,
            ) is Brainfuck && faced(stack, p)->Brainfuck_0 == faced(stack, q)->Brainfuck_0,
        forall|p: int, q: int|
            i <= p < q < args.len() && #[trigger] args[p] is Position && #[trigger] args[q] is Position
                && args[p]->Position_0 == args[q]->Position_0 ==> faced(stack, p) is Constant && faced(
                stack,
                q,
            ) is Constant && faced(stack, p)->Constant_0 == faced(stack, q)->Constant_0,
    decreases args.len() - i,
{
    if i < args.len() {
        let e = stack[stack.len() - 1 - i];
        let bs2 = match (e, args[i]) {
            (ExprModel::Constant(_, _), StackArg::Position(c, _)) => if binding_of(bs, c) is None {
                bs.push((c, e))
            } else {
                bs
            },
            (ExprModel::Brainfuck(_, _), StackArg::Qoutation(c, _)) => if binding_of(bs, c) is None {
                bs.push((c, e))
            } else {
                bs
            },
            _ => bs,
        };
        assert(match_args(stack, args, i + 1, bs2) is Some);
        lemma_match_args_consistent(stack, args, i + 1, bs2);
        // bindings already made stay
        assert forall|c: char| binding_of(bs, c) is Some implies binding_of(bs2, c) == binding_of(bs, c) by {
            if bs2 != bs {
                lemma_binding_push(bs, (bs2.last().0, bs2.last().1), c);
                assert(bs2 == bs.push((bs2.last().0, bs2.last().1)));
            }
        }
        // the letter of entry `i` is bound to the value it faced
        match args[i] {
            StackArg::Qoutation(c, _) => {
                assert(e is Brainfuck);
                if binding_of(bs, c) is None {
                    lemma_binding_push(bs, (c, e), c);
                }
                assert(binding_of(bs2, c) is Some && binding_of(bs2, c)->0 is Brainfuck && binding_of(
                    bs2,
                    c,
                )->0->Brainfuck_0 == e->Brainfuck_0);
            },
            StackArg::Position(c, _) => {
                assert(e is Constant);
                if binding_of(bs, c) is None {
                    lemma_binding_push(bs, (c, e), c);
                }
                assert(binding_of(bs2, c) is Some && binding_of(bs2, c)->0 is Constant && binding_of(
                    bs2,
                    c,
                )->0->Constant_0 == e->Constant_0);
            },
            _ => {},
        }
    }
}

/// A pattern that uses one letter at several entries matches only where the
/// values at those entries are equal: two entries with one uppercase letter face
/// Brainfuck blocks with the same text, two with one lowercase letter face the
/// same byte.
pub proof fn lemma_repeated_letters_match_equal(stack: Seq<ExprModel>, args: Seq<StackArg>)
    requires
        pattern_bindings(stack, args) is Some,
    ensures
        forall|p: int, q: int|
            0 <= p < q < args.len() && #[trigger] args[p] is Qoutation && #[trigger] args[q] is Qoutation
                && args[p]->Qoutation_0 == args[q]->Qoutation_0 ==> stack[stack.len() - 1 - p] is Brainfuck
                && stack[stack.len() - 1 - q] is Brainfuck && stack[stack.len() - 1 - p]->Brainfuck_0
                == stack[stack.len() - 1 - q]->Brainfuck_0,
        forall|p: int, q: int|
            0 <= p < q < args.len() && #[trigger] args[p] is Position && #[trigger] args[q] is Position
                && args[p]->Position_0 == args[q]->Position_0 ==> stack[stack.len() - 1 - p] is Constant
                && stack[stack.len() - 1 - q] is Constant && stack[stack.len() - 1 - p]->Constant_0
                == stack[stack.len() - 1 - q]->Constant_0,
{
    lemma_match_args_consistent(stack, args, 0, Seq::empty());
}

/// The value `e` has the kind an entry `a` asks for: a named byte, `@` or a number
/// faces a constant (the number faces that byte), a named quotation or `?` faces a
/// Brainfuck block.
pub open spec fn fits(e: ExprModel, a: StackArg) -> bool {
    match a {
        StackArg::Position(_, _) => e is Constant,
        StackArg::Byte(b) => e is Constant && e->Constant_0 == b,
        StackArg::IgnoredConstant => e is Constant,
        StackArg::Qoutation(_, _) => e is Brainfuck,
        StackArg::IgnoredQoutation => e is Brainfuck,
    }
}

/// The named entry `a` sees the value `e` as the value `v` it was bound to: both
/// constants with one byte for a named byte, both Brainfuck blocks with one text
/// for a named quotation.
pub open spec fn seen_as(a: StackArg, v: ExprModel, e: ExprModel) -> bool {
    match a {
        StackArg::Position(_, _) => v is Constant && e is Constant && v->Constant_0 == e->Constant_0,
        StackArg::Qoutation(_, _) => v is Brainfuck && e is Brainfuck && v->Brainfuck_0
            == e->Brainfuck_0,
        _ => true,
    }
}

/// The entries from `i` on of a pattern matching `stack` with the bindings `bs`:
/// each faces a value of its kind, sees a letter bound in `bs` as its binding,
/// and sees a letter used earlier in the pattern as the value there.
pub open spec fn matches_from(
    stack: Seq<ExprModel>,
    args: Seq<StackArg>,
    i: int,
    bs: Seq<(char, ExprModel)>,
) -> bool {
    &&& forall|j: int| i <= j < args.len() ==> fits(faced(stack, j), #[trigger] args[j])
    &&& forall|j: int|
        i <= j < args.len() && #[trigger] entry_name(args[j]) is Some && binding_of(
            bs,
            entry_name(args[j])->0,
        ) is Some ==> seen_as(args[j], binding_of(bs, entry_name(args[j])->0)->0, faced(stack, j))
    &&& forall|p: int, q: int|
        i <= p < q < args.len() && #[trigger] entry_name(args[p]) is Some && entry_name(args[p])
            == #[trigger] entry_name(args[q]) ==> seen_as(args[q], faced(stack, p), faced(stack, q))
}

proof fn lemma_match_sound(stack: Seq<ExprModel>, args: Seq<StackArg>, i: int, bs: Seq<(char, ExprModel)>)
    requires
        0 <= i <= args.len(),
        match_args(stack, args, i, bs) is Some,
    ensures
        matches_from(stack, args, i, bs),
    decreases args.len() - i,
{
    if i < args.len() {
        let e = stack[stack.len() - 1 - i];
        let bs2 = match (e, args[i]) {
            (ExprModel::Constant(_, _), StackArg::Position(c, _)) => if binding_of(bs, c) is None {
                bs.push((c, e))
            } else {
                bs
            },
            (ExprModel::Brainfuck(_, _), StackArg::Qoutation(c, _)) => if binding_of(bs, c) is None {
                bs.push((c, e))
            } else {
                bs
            },
            _ => bs,
        };
        assert(match_args(stack, args, i + 1, bs2) is Some);
        lemma_match_sound(stack, args, i + 1, bs2);
        assert forall|c: char| binding_of(bs, c) is Some implies binding_of(bs2, c) == binding_of(bs, c) by {
            if bs2 != bs {
                lemma_binding_push(bs, (bs2.last().0, bs2.last().1), c);
                assert(bs2 == bs.push((bs2.last().0, bs2.last().1)));
            }
        }
        if entry_name(args[i]) is Some {
            let c = entry_name(args[i])->0;
            if binding_of(bs, c) is None {
                lemma_binding_push(bs, (c, e), c);
            }
            assert(binding_of(bs2, c) == Some(binding_of(bs2, c)->0));
            assert(seen_as(args[i], binding_of(bs2, c)->0, e));
            assert forall|q: int| i < q < args.len() && #[trigger] entry_name(args[q]) == Some(c) implies seen_as(
                args[q],
                e,
                faced(stack, q),
            ) by {
                assert(seen_as(args[q], binding_of(bs2, c)->0, faced(stack, q)));
            }
        }
        assert(fits(e, args[i]));
    }
}

proof fn lemma_match_complete(
    stack: Seq<ExprModel>,
    args: Seq<StackArg>,
    i: int,
    bs: Seq<(char, ExprModel)>,
)
    requires
        0 <= i <= args.len(),
        args.len() <= stack.len(),
        matches_from(stack, args, i, bs),
    ensures
        match_args(stack, args, i, bs) is Some,
    decreases args.len() - i,
{
    if i < args.len() {
        let e = stack[stack.len() - 1 - i];
        assert(fits(e, args[i]));
        let bs2 = match (e, args[i]) {
            (ExprModel::Constant(_, _), StackArg::Position(c, _)) => if binding_of(bs, c) is None {
                bs.push((c, e))
            } else {
                bs
            },
            (ExprModel::Brainfuck(_, _), StackArg::Qoutation(c, _)) => if binding_of(bs, c) is None {
                bs.push((c, e))
            } else {
                bs
            },
            _ => bs,
        };
        assert forall|j: int|
            i + 1 <= j < args.len() && #[trigger] entry_name(args[j]) is Some && binding_of(
                bs2,
                entry_name(args[j])->0,
            ) is Some implies seen_as(args[j], binding_of(bs2, entry_name(args[j])->0)->0, faced(stack, j)) by {
            let d = entry_name(args[j])->0;
            if bs2 != bs {
                lemma_binding_push(bs, (bs2.last().0, bs2.last().1), d);
                assert(bs2 == bs.push((bs2.last().0, bs2.last().1)));
                if binding_of(bs, d) is None {
                    assert(d == entry_name(args[i])->0);
                    assert(seen_as(args[j], faced(stack, i), faced(stack, j)));
                }
            }
        }
        assert(matches_from(stack, args, i + 1, bs2));
        lemma_match_complete(stack, args, i + 1, bs2);
        if entry_name(args[i]) is Some {
            let c = entry_name(args[i])->0;
            if binding_of(bs, c) is Some {
                assert(seen_as(args[i], binding_of(bs, c)->0, e));
            }
        }
    }
}

/// A pattern matches a stack exactly when the stack has a value for each entry,
/// each entry faces a value of its kind (a number faces that very byte), and an
/// entry whose letter appeared at an earlier entry faces a value equal to the one
/// there: the same byte for a named byte, the same Brainfuck text for a named
/// quotation.
pub proof fn lemma_pattern_match_exact(stack: Seq<ExprModel>, args: Seq<StackArg>)
    ensures
        (pattern_bindings(stack, args) is Some) == (args.len() <= stack.len() && (forall|i: int|
            0 <= i < args.len() ==> fits(stack[stack.len() - 1 - i], #[trigger] args[i])) && (forall|
            p: int,
            q: int,
        |
            0 <= p < q < args.len() && #[trigger] entry_name(args[p]) is Some && entry_name(args[p])
                == #[trigger] entry_name(args[q]) ==> seen_as(
                args[q],
                stack[stack.len() - 1 - p],
                stack[stack.len() - 1 - q],
            ))),
{
    let e: Seq<(char, ExprModel)> = Seq::empty();
    if match_args(stack, args, 0, e) is Some {
        lemma_match_sound(stack, args, 0, e);
        lemma_match_args_len(stack, args, 0, e);
    }
    if args.len() <= stack.len() && (forall|i: int|
        0 <= i < args.len() ==> fits(stack[stack.len() - 1 - i], #[trigger] args[i])) && (forall|
        p: int,
        q: int,
    |
        0 <= p < q < args.len() && #[trigger] entry_name(args[p]) is Some && entry_name(args[p])
            == #[trigger] entry_name(args[q]) ==> seen_as(
            args[q],
            stack[stack.len() - 1 - p],
            stack[stack.len() - 1 - q],
        )) {
        assert forall|j: int| 0 <= j < args.len() implies fits(faced(stack, j), #[trigger] args[j]) by {
            assert(fits(stack[stack.len() - 1 - j], args[j]));
        }
        lemma_match_complete(stack, args, 0, e);
    }
}

proof fn lemma_match_result(stack: Seq<ExprModel>, args: Seq<StackArg>, i: int, bs: Seq<(char, ExprModel)>)
    requires
        0 <= i <= args.len(),
        match_args(stack, args, i, bs) is Some,
    ensures
        forall|c: char|
            #[trigger] binding_of(bs, c) is Some ==> binding_of(match_args(stack, args, i, bs)->0, c)
                == binding_of(bs, c),
        forall|j: int|
            i <= j < args.len() && #[trigger] entry_name(args[j]) is Some && binding_of(
                bs,
                entry_name(args[j])->0,
            ) is None && (forall|q: int| i <= q < j ==> entry_name(args[q]) != entry_name(args[j]))
                ==> binding_of(match_args(stack, args, i, bs)->0, entry_name(args[j])->0) == Some(
                faced(stack, j),
            ),
    decreases args.len() - i,
{
    if i < args.len() {
        let e = stack[stack.len() - 1 - i];
        let bs2 = match (e, args[i]) {
            (ExprModel::Constant(_, _), StackArg::Position(c, _)) => if binding_of(bs, c) is None {
                bs.push((c, e))
            } else {
                bs
            },
            (ExprModel::Brainfuck(_, _), StackArg::Qoutation(c, _)) => if binding_of(bs, c) is None {
                bs.push((c, e))
            } else {
                bs
            },
            _ => bs,
        };
        assert(match_args(stack, args, i, bs) == match_args(stack, args, i + 1, bs2));
        lemma_match_result(stack, args, i + 1, bs2);
        assert forall|c: char| #[trigger] binding_of(bs, c) is Some implies binding_of(bs2, c) == binding_of(bs, c) by {
            if bs2 != bs {
                lemma_binding_push(bs, (bs2.last().0, bs2.last().1), c);
                assert(bs2 == bs.push((bs2.last().0, bs2.last().1)));
            }
        }
        assert forall|j: int|
            i <= j < args.len() && #[trigger] entry_name(args[j]) is Some && binding_of(
                bs,
                entry_name(args[j])->0,
            ) is None && (forall|q: int| i <= q < j ==> entry_name(args[q]) != entry_name(args[j]))
            implies binding_of(match_args(stack, args, i, bs)->0, entry_name(args[j])->0) == Some(
            faced(stack, j),
        ) by {
            let d = entry_name(args[j])->0;
            if j == i {
                lemma_binding_push(bs, (d, e), d);
                assert(binding_of(bs2, d) == Some(e));
            } else {
                assert(entry_name(args[i]) != entry_name(args[j]));
                if bs2 != bs {
                    lemma_binding_push(bs, (bs2.last().0, bs2.last().1), d);
                    assert(bs2 == bs.push((bs2.last().0, bs2.last().1)));
                }
                assert(binding_of(bs2, d) is None);
            }
        }
    }
}

proof fn lemma_binding_map(bs: Seq<(char, ExprModel)>, c: char)
    ensures
        binding_of(Seq::new(bs.len(), |k: int| (bs[k].0, bound_value(bs[k].1))), c) == match binding_of(
            bs,
            c,
        ) {
            Some(v) => Some(bound_value(v)),
            None => None,
        },
    decreases bs.len(),
{
    let m = Seq::new(bs.len(), |k: int| (bs[k].0, bound_value(bs[k].1)));
    if bs.len() > 0 {
        let t = bs.drop_first();
        assert(m.drop_first() =~= Seq::new(t.len(), |k: int| (t[k].0, bound_value(t[k].1))));
        lemma_binding_map(t, c);
    }
}

/// After a match, each letter of the pattern is bound to the value its first
/// entry faced: a byte as it is, a Brainfuck block as a string quotation of its
/// text (see `bound_value`).
pub proof fn lemma_pattern_binds_first(stack: Seq<ExprModel>, args: Seq<StackArg>, j: int)
    requires
        pattern_bindings(stack, args) is Some,
        0 <= j < args.len(),
        entry_name(args[j]) is Some,
        forall|q: int| 0 <= q < j ==> entry_name(args[q]) != entry_name(args[j]),
    ensures
        binding_of(pattern_bindings(stack, args)->0, entry_name(args[j])->0) == Some(
            bound_value(stack[stack.len() - 1 - j]),
        ),
{
    let e: Seq<(char, ExprModel)> = Seq::empty();
    lemma_match_result(stack, args, 0, e);
    assert(binding_of(e, entry_name(args[j])->0) is None);
    lemma_binding_map(match_args(stack, args, 0, e)->0, entry_name(args[j])->0);
}

/// A match that succeeds consumes as many stack values as the pattern has entries.
pub proof fn lemma_match_args_len(
    stack: Seq<ExprModel>,
    args: Seq<StackArg>,
    i: int,
    bs: Seq<(char, ExprModel)>,
)
    requires
        0 <= i <= args.len(),
        match_args(stack, args, i, bs) is Some,
    ensures
        args.len() <= stack.len() || i == args.len(),
    decreases args.len() - i,
{
    if i < args.len() {
        let e = stack[stack.len() - 1 - i];
        match (e, args[i]) {
            (ExprModel::Constant(a, _), StackArg::Position(c, _)) => {
                if binding_of(bs, c) is None {
                    lemma_match_args_len(stack, args, i + 1, bs.push((c, e)));
                } else {
                    lemma_match_args_len(stack, args, i + 1, bs);
                }
            },
            (ExprModel::Brainfuck(b, _), StackArg::Qoutation(c, _)) => {
                if binding_of(bs, c) is None {
                    lemma_match_args_len(stack, args, i + 1, bs.push((c, e)));
                } else {
                    lemma_match_args_len(stack, args, i + 1, bs);
                }
            },
            _ => {
                lemma_match_args_len(stack, args, i + 1, bs);
            },
        }
    }
}

/// The string quotation for a bound Brainfuck block.
fn block_as_quotation(bf: &String, span: Span) -> (r: Expression)
    ensures
        r@ == bound_value(ExprModel::Brainfuck(bf@, span@)),
{
    let mut constants: Vec<Expression> = Vec::new();
    constants.push(Expression::Constant(0, span));
    let n = bf.as_str().unicode_len();
    let mut k: usize = 0;
    let ghost target = seq![ExprModel::Constant(0, span@)] + Seq::new(
        bf@.len(),
        |j: int| ExprModel::Constant(char_byte(bf@[j]), span@),
    );
    proof {
        assert(constants@ == seq![Expression::Constant(0, span)]);
        lemma_exprs_view_push(Seq::empty(), Expression::Constant(0, span));
        assert(exprs_view(Seq::<Expression>::empty()) =~= Seq::<ExprModel>::empty());
        assert(seq![Expression::Constant(0, span)] =~= Seq::<Expression>::empty().push(Expression::Constant(0, span)));
    }
    while k < n
        invariant
            n == bf@.len(),
            k <= n,
            exprs_view(constants@) == target.subrange(0, k + 1),
            target == seq![ExprModel::Constant(0, span@)] + Seq::new(
                bf@.len(),
                |j: int| ExprModel::Constant(char_byte(bf@[j]), span@),
            ),
            target.len() == n + 1,
        decreases n - k,
    {
        let c = bf.as_str().get_char(k);
        let b = (c as u32 % 256) as u8;
        let e = Expression::Constant(b, span);
        proof {
            lemma_exprs_view_push(constants@, e);
            assert(c == bf@[k as int]);
            assert(b == char_byte(bf@[k as int]));
            assert(target[k + 1] == ExprModel::Constant(char_byte(bf@[k as int]), span@));
            assert(e@ == ExprModel::Constant(b, span@));
            assert(target.subrange(0, k + 2) =~= target.subrange(0, k + 1).push(e@));
        }
        constants.push(e);
        k = k + 1;
    }
    assert(target.subrange(0, n + 1) =~= target);
    Expression::Quotation(constants, span)
}

/// Matches a stack pattern against the top of the stack. On success, returns what
/// each name of the pattern is bound to; bound Brainfuck blocks are turned into
/// string quotations.
pub fn pattern_match(stack: &[Expression], pattern: &StackArgs) -> (r: Option<
    Vec<(char, Expression)>,
>)
    ensures
        (r is Some) == (pattern_bindings(exprs_view(stack@), pattern.args@) is Some),
        r matches Some(v) ==> binds_view(v@) == pattern_bindings(
            exprs_view(stack@),
            pattern.args@,
        )->0,
{
    let ghost st = exprs_view(stack@);
    let ghost args = pattern.args@;
    proof {
        lemma_exprs_view_len(stack@);
    }
    let mut bindings: Vec<(char, Expression)> = Vec::new();
    let n = stack.len();
    let mut i: usize = 0;
    assert(binds_view(bindings@) =~= Seq::<(char, ExprModel)>::empty());
    while i < pattern.args.len()
        invariant
            i <= args.len(),
            args == pattern.args@,
            n == stack@.len(),
            st == exprs_view(stack@),
            st.len() == n,
            match_args(st, args, 0, Seq::empty()) == match_args(st, args, i as int, binds_view(bindings@)),
        decreases args.len() - i,
    {
        if i >= n {
            return None;
        }
        let expr = &stack[n - 1 - i];
        proof {
            lemma_exprs_view_index(stack@, n - 1 - i);
        }
        let arg = pattern.args[i];
        let ghost bs = binds_view(bindings@);
        match (expr, arg) {
            (Expression::Constant(a, _), StackArg::Position(c, _)) => {
                match find_binding(&bindings, c) {
                    Some(Expression::Constant(b, _)) => {
                        if *a != *b {
                            return None;
                        }
                    },
                    Some(_) => {
                        return None;
                    },
                    None => {
                        let e = expr.duplicate();
                        bindings.push((c, e));
                        assert(binds_view(bindings@) =~= bs.push((c, st[n - 1 - i])));
                    },
                }
            },
            (Expression::Constant(a, _), StackArg::Byte(b)) => {
                if *a != b {
                    return None;
                }
            },
            (Expression::Constant(_, _), StackArg::IgnoredConstant) => {},
            (Expression::Brainfuck(s, _), StackArg::Qoutation(c, _)) => {
                match find_binding(&bindings, c) {
                    Some(Expression::Brainfuck(t, _)) => {
                        if *t != *s {
                            return None;
                        }
                    },
                    Some(_) => {
                        return None;
                    },
                    None => {
                        let e = expr.duplicate();
                        bindings.push((c, e));
                        assert(binds_view(bindings@) =~= bs.push((c, st[n - 1 - i])));
                    },
                }
            },
            (Expression::Brainfuck(_, _), StackArg::IgnoredQoutation) => {},
            _ => {
                return None;
            },
        }
        i = i + 1;
    }
    // Replace the bound Brainfuck blocks with string quotations
    let ghost found = binds_view(bindings@);
    let mut result: Vec<(char, Expression)> = Vec::new();
    let mut k: usize = 0;
    while k < bindings.len()
        invariant
            k <= bindings@.len(),
            found == binds_view(bindings@),
            result@.len() == k,
            forall|j: int|
                0 <= j < k ==> (#[trigger] result@[j]).0 == found[j].0 && result@[j].1@
                    == bound_value(found[j].1),
        decreases bindings@.len() - k,
    {
        let (c, e) = &bindings[k];
        let v = match e {
            Expression::Brainfuck(bf, span) => block_as_quotation(bf, *span),
            _ => e.duplicate(),
        };
        result.push((*c, v));
        k = k + 1;
    }
    assert(binds_view(result@) =~= Seq::new(
        found.len(),
        |j: int| (found[j].0, bound_value(found[j].1)),
    ));
    Some(result)
}

/// Applying no bindings leaves an expression as it is.
pub proof fn lemma_subst_expr_empty(e: ExprModel)
    ensures
        subst_expr(Seq::empty(), e) == e,
    decreases e,
{
    match e {
        ExprModel::Quotation(es, s) => {
            lemma_subst_exprs_empty(es);
        },
        _ => {},
    }
}

/// Applying no bindings leaves a list of expressions as it is.
pub proof fn lemma_subst_exprs_empty(es: Seq<ExprModel>)
    ensures
        subst_exprs(Seq::empty(), es) == es,
    decreases es,
{
    if es.len() > 0 {
        lemma_subst_exprs_empty(es.drop_last());
        lemma_subst_expr_empty(es.last());
        assert(es.drop_last().push(es.last()) =~= es);
    }
}

/// A bound name stays bound, to the same value, when the bindings grow.
proof fn lemma_binding_of_push(bs: Seq<(char, ExprModel)>, b: (char, ExprModel), c: char)
    requires
        binding_of(bs, c) is Some,
    ensures
        binding_of(bs.push(b), c) == binding_of(bs, c),
    decreases bs.len(),
{
    if bs[0].0 != c {
        assert(bs.push(b).drop_first() =~= bs.drop_first().push(b));
        lemma_binding_of_push(bs.drop_first(), b, c);
    }
}

/// The name of a pattern entry, for the named entries.
pub open spec fn entry_name(a: StackArg) -> Option<char> {
    match a {
        StackArg::Position(c, _) => Some(c),
        StackArg::Qoutation(c, _) => Some(c),
        _ => None,
    }
}

/// A successful match binds every name of the pattern: after a match, each letter
/// of the pattern can be replaced in the definition's body.
pub proof fn lemma_match_binds_names(
    stack: Seq<ExprModel>,
    args: Seq<StackArg>,
    i: int,
    bs: Seq<(char, ExprModel)>,
    k: int,
)
    requires
        0 <= i,
        match_args(stack, args, i, bs) is Some,
        0 <= k < args.len(),
        entry_name(args[k]) is Some,
        k < i ==> binding_of(bs, entry_name(args[k])->0) is Some,
    ensures
        binding_of(match_args(stack, args, i, bs)->0, entry_name(args[k])->0) is Some,
    decreases args.len() - i,
{
    let c = entry_name(args[k])->0;
    if i >= args.len() {
    } else {
        let e = stack[stack.len() - 1 - i];
        let step_bs = match (e, args[i]) {
            (ExprModel::Constant(_, _), StackArg::Position(d, _)) => if binding_of(bs, d) is None {
                bs.push((d, e))
            } else {
                bs
            },
            (ExprModel::Brainfuck(_, _), StackArg::Qoutation(d, _)) => if binding_of(bs, d) is None {
                bs.push((d, e))
            } else {
                bs
            },
            _ => bs,
        };
        assert(match_args(stack, args, i, bs) == match_args(stack, args, i + 1, step_bs));
        if k < i {
            if step_bs != bs {
                lemma_binding_of_push(bs, step_bs.last(), c);
                assert(step_bs == bs.push(step_bs.last()));
            }
        } else if k == i {
            if step_bs != bs {
                let d = step_bs.last().0;
                if binding_of(bs, c) is Some {
                    lemma_binding_of_push(bs, step_bs.last(), c);
                    assert(step_bs == bs.push(step_bs.last()));
                } else {
                    lemma_binding_of_last(bs, step_bs.last());
                    assert(step_bs == bs.push(step_bs.last()));
                }
            }
        }
        lemma_match_binds_names(stack, args, i + 1, step_bs, k);
    }
}

/// A name that is not bound yet is bound to the value pushed for it.
proof fn lemma_binding_of_last(bs: Seq<(char, ExprModel)>, b: (char, ExprModel))
    requires
        binding_of(bs, b.0) is None,
    ensures
        binding_of(bs.push(b), b.0) == Some(b.1),
    decreases bs.len(),
{
    if bs.len() == 0 {
        assert(bs.push(b)[0] == b);
    } else {
        assert(bs.push(b).drop_first() =~= bs.drop_first().push(b));
        lemma_binding_of_last(bs.drop_first(), b);
    }
}

/// Turning the bound values into their final form keeps which names are bound.
proof fn lemma_binding_of_converted(bs: Seq<(char, ExprModel)>, c: char)
    ensures
        (binding_of(bs, c) is Some) == (binding_of(
            Seq::new(bs.len(), |k: int| (bs[k].0, bound_value(bs[k].1))),
            c,
        ) is Some),
    decreases bs.len(),
{
    let m = Seq::new(bs.len(), |k: int| (bs[k].0, bound_value(bs[k].1)));
    if bs.len() > 0 && bs[0].0 != c {
        let rest = bs.drop_first();
        assert(m.drop_first() =~= Seq::new(rest.len(), |k: int| (rest[k].0, bound_value(rest[k].1))));
        lemma_binding_of_converted(rest, c);
    }
}

/// When a pattern matches a stack, every letter of the pattern is bound.
pub proof fn lemma_pattern_binds_names(stack: Seq<ExprModel>, args: Seq<StackArg>, k: int)
    requires
        pattern_bindings(stack, args) is Some,
        0 <= k < args.len(),
        entry_name(args[k]) is Some,
    ensures
        binding_of(pattern_bindings(stack, args)->0, entry_name(args[k])->0) is Some,
{
    lemma_match_binds_names(stack, args, 0, Seq::empty(), k);
    lemma_binding_of_converted(match_args(stack, args, 0, Seq::empty())->0, entry_name(args[k])->0);
}

} // verus!
