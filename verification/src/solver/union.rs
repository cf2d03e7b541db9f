use vstd::prelude::*;

use super::definition::{
    contains_model, element_matches, first_index, first_variable, lemma_first_index,
    lemma_reduce_wf, pcs_model,
    reduce_element, reduce_model, reducible, wf_constraint, Constraint,
};
use crate::compiler::text::push_char;
use vstd::string::StrSliceExecFns;
use super::positional::{PcModel, PositionalConstraint};
use super::{Reduction, ReductionModel, StackValue, ValueModel};

verus! {

/// Whether a first position `p` accepts the value `x`.
#[verifier::opaque]
pub open spec fn accepts(p: PcModel, x: ValueModel) -> bool {
    match p {
        PcModel::AnyByte => x is Byte,
        PcModel::PositionalByte(_) => x is Byte,
        PcModel::ExactByte(b) => x == ValueModel::Byte(b),
        PcModel::AnyQuotation => x is Quotation,
        PcModel::PositionalQuotation(_) => x is Quotation,
        PcModel::ExactQuotation(q) => x == ValueModel::Quotation(q),
    }
}

/// The union covers `c`: every stack state in the set of `c` is in the set of
/// some constraint of the union.
pub open spec fn covers(u: Seq<Seq<PcModel>>, c: Seq<PcModel>) -> bool {
    forall|s: Seq<ValueModel>|
        s.len() == c.len() && #[trigger] contains_model(c, s) ==> exists|i: int|
            0 <= i < u.len() && #[trigger] contains_model(u[i], s)
}

/// The constraints of the union are well formed and have the length of `c`.
pub open spec fn compatible(u: Seq<Seq<PcModel>>, c: Seq<PcModel>) -> bool {
    &&& wf_constraint(c)
    &&& c.len() <= usize::MAX
    &&& forall|i: int|
        #![trigger u[i]]
        0 <= i < u.len() ==> wf_constraint(u[i]) && u[i].len() == c.len()
}

/// `c` names the value `v` as an exact element.
pub open spec fn mentions(c: Seq<PcModel>, v: ValueModel) -> bool {
    exists|j: int| #![trigger c[j]] 0 <= j < c.len() && c[j].exact_value() == Some(v)
}

/// `c` or some constraint of `u` names the value `v` as an exact element.
pub open spec fn mentioned(u: Seq<Seq<PcModel>>, c: Seq<PcModel>, v: ValueModel) -> bool {
    mentions(c, v) || exists|i: int| 0 <= i < u.len() && mentions(#[trigger] u[i], v)
}

/// Two values of the same kind.
pub open spec fn same_kind(a: ValueModel, b: ValueModel) -> bool {
    (a is Byte) == (b is Byte)
}

/// Exchanges the values `a` and `b`, leaving every other value as it is.
pub open spec fn swap_value(a: ValueModel, b: ValueModel, v: ValueModel) -> ValueModel {
    if v == a {
        b
    } else if v == b {
        a
    } else {
        v
    }
}

/// A state with the values `a` and `b` exchanged everywhere.
pub open spec fn swap_state(a: ValueModel, b: ValueModel, s: Seq<ValueModel>) -> Seq<ValueModel> {
    Seq::new(s.len(), |j: int| swap_value(a, b, s[j]))
}

/// Every state whose first value is `x` and that lies in the set of `c` lies in the
/// set of some constraint of `u`.
pub open spec fn covers_from(u: Seq<Seq<PcModel>>, c: Seq<PcModel>, x: ValueModel) -> bool {
    forall|s: Seq<ValueModel>|
        s.len() == c.len() && s[0] == x && #[trigger] contains_model(c, s) ==> exists|i: int|
            0 <= i < u.len() && #[trigger] contains_model(u[i], s)
}

/// `ru` holds, in order, the constraints of `u` whose first position accepts `x`,
/// each reduced by `x`; `idx` gives the constraint each one comes from.
pub open spec fn splits(
    u: Seq<Seq<PcModel>>,
    x: ValueModel,
    ru: Seq<Seq<PcModel>>,
    idx: Seq<int>,
) -> bool {
    &&& ru.len() == idx.len()
    &&& forall|k: int|
        #![trigger idx[k]]
        0 <= k < ru.len() ==> 0 <= idx[k] < u.len() && accepts(u[idx[k]][0], x) && ru[k]
            == reduce_model(u[idx[k]], ReductionModel::exact(x))
    &&& forall|i: int|
        #![trigger u[i]]
        0 <= i < u.len() && accepts(u[i][0], x) ==> exists|k: int|
            0 <= k < idx.len() && idx[k] == i
}

/// Every element of a constraint fixes the kind of the value it accepts.
proof fn lemma_matches_kind(c: Seq<PcModel>, w: Seq<ValueModel>, j: int)
    requires
        0 <= j < c.len(),
        element_matches(c, w, j),
    ensures
        (w[j] is Byte) == c[j].is_byte(),
{
}

/// A state splits into its first value and the rest: it lies in the set of `c`
/// exactly when the first position accepts the first value and the rest lies in
/// the set of `c` reduced by that value.
pub proof fn lemma_split_contains(c: Seq<PcModel>, s: Seq<ValueModel>)
    requires
        wf_constraint(c),
        c.len() > 0,
        c.len() <= usize::MAX,
        s.len() == c.len(),
    ensures
        contains_model(c, s) == (accepts(c[0], s[0]) && contains_model(
            reduce_model(c, ReductionModel::exact(s[0])),
            s.drop_first(),
        )),
{
    reveal(accepts);
    let n = c.len() as int;
    let x = s[0];
    let v = ReductionModel::exact(x);
    let t = s.drop_first();
    let rc = reduce_model(c, v);
    let tail = c.drop_first();
    assert(s.subrange(0, n) =~= s);
    assert(t.subrange(0, t.len() as int) =~= t);
    assert(element_matches(c, s, 0) == accepts(c[0], x)) by {
        match c[0] {
            PcModel::PositionalByte(i) => {
                assert(i <= 0);
            },
            PcModel::PositionalQuotation(i) => {
                assert(i <= 0);
            },
            _ => {},
        }
    }
    if accepts(c[0], x) {
        let k = first_index(tail, first_variable(v));
        assert forall|j: int| 0 <= j < n - 1 implies element_matches(c, s, j + 1)
            == #[trigger] element_matches(rc, t, j) by {
            assert(tail[j] == c[j + 1]);
            assert(rc[j] == reduce_element(tail[j], v, k));
            assert(t[j] == s[j + 1]);
            match c[j + 1] {
                PcModel::PositionalByte(m) => {
                    assert(m <= j + 1 && c[m as int] == PcModel::PositionalByte(m));
                    if m > 0 {
                        assert(t[m - 1] == s[m as int]);
                    }
                },
                PcModel::PositionalQuotation(m) => {
                    assert(m <= j + 1 && c[m as int] == PcModel::PositionalQuotation(m));
                    if m > 0 {
                        assert(t[m - 1] == s[m as int]);
                    }
                },
                _ => {},
            }
        }
        if contains_model(c, s) {
            assert forall|j: int| #![trigger rc[j]] 0 <= j < rc.len() implies element_matches(
                rc,
                t,
                j,
            ) by {
                assert(element_matches(c, s, j + 1));
            }
        }
        if contains_model(rc, t) {
            assert forall|j: int| #![trigger c[j]] 0 <= j < c.len() implies element_matches(
                c,
                s,
                j,
            ) by {
                if j > 0 {
                    assert(element_matches(rc, t, j - 1));
                }
            }
        }
    }
}

/// Reducing by an unconstrained value of the kind of the first position gives the
/// states that some value accepted by the first position completes to a state of `c`.
pub proof fn lemma_reduce_any_contains(c: Seq<PcModel>, t: Seq<ValueModel>)
    requires
        wf_constraint(c),
        c.len() > 0,
        c.len() <= usize::MAX,
        t.len() == c.len() - 1,
    ensures
        contains_model(reduce_model(c, ReductionModel::any(c[0].is_byte())), t) == exists|x: ValueModel|
            #[trigger] contains_model(c, seq![x] + t),
{
    reveal(accepts);
    let n = c.len() as int;
    let v = ReductionModel::any(c[0].is_byte());
    let rc = reduce_model(c, v);
    let tail = c.drop_first();
    let p = first_variable(v);
    let k = first_index(tail, p);
    lemma_first_index(tail, p);
    assert(t.subrange(0, t.len() as int) =~= t);
    assert forall|x: ValueModel| accepts(c[0], x) && (k >= 0 ==> x == t[k]) implies contains_model(
        c,
        seq![x] + t,
    ) == contains_model(rc, t) by {
        let s = seq![x] + t;
        assert(s.subrange(0, n) =~= s);
        assert(s.drop_first() =~= t);
        assert(element_matches(c, s, 0)) by {
            match c[0] {
                PcModel::PositionalByte(i) => {
                    assert(i <= 0);
                },
                PcModel::PositionalQuotation(i) => {
                    assert(i <= 0);
                },
                _ => {},
            }
        }
        assert forall|j: int| 0 <= j < n - 1 implies element_matches(c, s, j + 1)
            == #[trigger] element_matches(rc, t, j) by {
            assert(tail[j] == c[j + 1]);
            assert(rc[j] == reduce_element(tail[j], v, k));
            assert(s[j + 1] == t[j]);
            match c[j + 1] {
                PcModel::PositionalByte(m) => {
                    assert(m <= j + 1 && c[m as int] == PcModel::PositionalByte(m));
                    if m > 0 {
                        assert(s[m as int] == t[m - 1]);
                    } else {
                        assert(tail[j] == p);
                        assert(0 <= k <= j);
                    }
                },
                PcModel::PositionalQuotation(m) => {
                    assert(m <= j + 1 && c[m as int] == PcModel::PositionalQuotation(m));
                    if m > 0 {
                        assert(s[m as int] == t[m - 1]);
                    } else {
                        assert(tail[j] == p);
                        assert(0 <= k <= j);
                    }
                },
                _ => {},
            }
        }
        if contains_model(c, s) {
            assert forall|j: int| #![trigger rc[j]] 0 <= j < rc.len() implies element_matches(rc, t, j) by {
                assert(element_matches(c, s, j + 1));
            }
        }
        if contains_model(rc, t) {
            assert forall|j: int| #![trigger c[j]] 0 <= j < c.len() implies element_matches(c, s, j) by {
                if j > 0 {
                    assert(element_matches(rc, t, j - 1));
                }
            }
        }
    }
    if contains_model(rc, t) {
        let x = if c[0].exact_value() is Some {
            c[0].exact_value()->0
        } else if k >= 0 {
            t[k]
        } else if c[0].is_byte() {
            ValueModel::Byte(0)
        } else {
            ValueModel::Quotation(Seq::empty())
        };
        if k >= 0 {
            assert(tail[k] == p);
            assert(c[k + 1] == p);
            assert(c[0] == p);
            assert(rc[k] == reduce_element(tail[k], v, k));
            assert(element_matches(rc, t, k));
        }
        assert(accepts(c[0], x));
        assert(contains_model(c, seq![x] + t));
    }
    if exists|x: ValueModel| #[trigger] contains_model(c, seq![x] + t) {
        let x = choose|x: ValueModel| #[trigger] contains_model(c, seq![x] + t);
        let s = seq![x] + t;
        assert(s.subrange(0, n) =~= s);
        assert(element_matches(c, s, 0));
        if k >= 0 {
            assert(tail[k] == p);
            assert(c[k + 1] == p);
            assert(element_matches(c, s, k + 1));
            assert(s[k + 1] == t[k]);
        }
        match c[0] {
            PcModel::PositionalByte(i) => {
                assert(i <= 0);
            },
            PcModel::PositionalQuotation(i) => {
                assert(i <= 0);
            },
            _ => {},
        }
        assert(accepts(c[0], x));
        assert(contains_model(rc, t));
    }
}

/// The values that the reduction `v` stands for: its value when it is exact,
/// else every value of its kind.
pub open spec fn stands_for(v: ReductionModel, x: ValueModel) -> bool {
    match v {
        ReductionModel::ExactByte(b) => x == ValueModel::Byte(b),
        ReductionModel::AnyByte => x is Byte,
        ReductionModel::ExactQuotation(q) => x == ValueModel::Quotation(q),
        ReductionModel::AnyQuotation => x is Quotation,
    }
}

/// Reducing fixes or projects away the first position: a state `t` lies in the
/// set of `c` reduced by `v` exactly when some value that `v` stands for,
/// put below `t`, gives a state of `c`. The first position must have the kind of
/// `v`, and accept the value of `v` when it is exact.
pub proof fn lemma_reduce_contains(c: Seq<PcModel>, v: ReductionModel, t: Seq<ValueModel>)
    requires
        wf_constraint(c),
        reducible(c, v),
        c.len() <= usize::MAX,
        t.len() == c.len() - 1,
        forall|x: ValueModel| stands_for(v, x) && v == ReductionModel::exact(x) ==> accepts(c[0], x),
    ensures
        contains_model(reduce_model(c, v), t) == exists|x: ValueModel|
            stands_for(v, x) && #[trigger] contains_model(c, seq![x] + t),
{
    if v is AnyByte || v is AnyQuotation {
        assert(v == ReductionModel::any(c[0].is_byte()));
        lemma_reduce_any_contains(c, t);
        if exists|x: ValueModel| #[trigger] contains_model(c, seq![x] + t) {
            let x = choose|x: ValueModel| #[trigger] contains_model(c, seq![x] + t);
            let s = seq![x] + t;
            assert(s.subrange(s.len() - c.len(), s.len() as int) =~= s);
            assert(element_matches(c, s, 0));
            lemma_matches_kind(c, s, 0);
            assert(stands_for(v, x));
        }
    } else {
        let x = match v {
            ReductionModel::ExactByte(b) => ValueModel::Byte(b),
            ReductionModel::ExactQuotation(q) => ValueModel::Quotation(q),
            _ => ValueModel::Byte(0),
        };
        assert(stands_for(v, x) && v == ReductionModel::exact(x));
        let s = seq![x] + t;
        lemma_split_contains(c, s);
        assert(s[0] == x);
        assert(s.drop_first() =~= t);
        if contains_model(reduce_model(c, v), t) {
            assert(contains_model(c, seq![x] + t));
        }
        if exists|y: ValueModel| stands_for(v, y) && #[trigger] contains_model(c, seq![y] + t) {
            let y = choose|y: ValueModel| stands_for(v, y) && #[trigger] contains_model(c, seq![y] + t);
            assert(y == x);
        }
    }
}

/// Exchanging two values of one kind that `c` does not name keeps a state in or
/// out of the set of `c`.
pub proof fn lemma_swap_contains(
    c: Seq<PcModel>,
    a: ValueModel,
    b: ValueModel,
    s: Seq<ValueModel>,
)
    requires
        wf_constraint(c),
        s.len() == c.len(),
        same_kind(a, b),
        !mentions(c, a),
        !mentions(c, b),
    ensures
        contains_model(c, swap_state(a, b, s)) == contains_model(c, s),
{
    let n = c.len() as int;
    let s2 = swap_state(a, b, s);
    assert(s.subrange(0, n) =~= s);
    assert(s2.subrange(0, n) =~= s2);
    assert forall|j: int| #![trigger c[j]] 0 <= j < n implies element_matches(c, s2, j)
        == element_matches(c, s, j) by {
        assert(!(c[j].exact_value() == Some(a)));
        assert(!(c[j].exact_value() == Some(b)));
        assert(s2[j] == swap_value(a, b, s[j]));
        match c[j] {
            PcModel::PositionalByte(i) => {
                assert(i <= j);
                assert(s2[i as int] == swap_value(a, b, s[i as int]));
            },
            PcModel::PositionalQuotation(i) => {
                assert(i <= j);
                assert(s2[i as int] == swap_value(a, b, s[i as int]));
            },
            _ => {},
        }
    }
}

/// A branch whose reduced problem is covered covers every state that starts with its value.
proof fn lemma_branch_covered(
    u: Seq<Seq<PcModel>>,
    c: Seq<PcModel>,
    x: ValueModel,
    ru: Seq<Seq<PcModel>>,
    idx: Seq<int>,
)
    requires
        compatible(u, c),
        c.len() > 0,
        splits(u, x, ru, idx),
        covers(ru, reduce_model(c, ReductionModel::exact(x))),
    ensures
        covers_from(u, c, x),
{
    let rc = reduce_model(c, ReductionModel::exact(x));
    assert forall|s: Seq<ValueModel>|
        s.len() == c.len() && s[0] == x && #[trigger] contains_model(c, s) implies exists|i: int|
        0 <= i < u.len() && #[trigger] contains_model(u[i], s) by {
        lemma_split_contains(c, s);
        let t = s.drop_first();
        assert(t.len() == rc.len());
        assert(contains_model(rc, t));
        let k = choose|k: int| 0 <= k < ru.len() && #[trigger] contains_model(ru[k], t);
        let i = idx[k];
        assert(ru[k] == reduce_model(u[i], ReductionModel::exact(x)));
        assert(wf_constraint(u[i]) && u[i].len() == c.len());
        lemma_split_contains(u[i], s);
        assert(contains_model(u[i], s));
    }
}

/// A branch whose reduced problem is not covered leaves a state of `c` uncovered.
proof fn lemma_branch_uncovered(
    u: Seq<Seq<PcModel>>,
    c: Seq<PcModel>,
    x: ValueModel,
    ru: Seq<Seq<PcModel>>,
    idx: Seq<int>,
)
    requires
        compatible(u, c),
        c.len() > 0,
        accepts(c[0], x),
        splits(u, x, ru, idx),
        !covers(ru, reduce_model(c, ReductionModel::exact(x))),
    ensures
        !covers(u, c),
{
    let rc = reduce_model(c, ReductionModel::exact(x));
    let t = choose|t: Seq<ValueModel>|
        !(t.len() == rc.len() && #[trigger] contains_model(rc, t) ==> exists|k: int|
            0 <= k < ru.len() && #[trigger] contains_model(ru[k], t));
    let s = seq![x] + t;
    assert(s.drop_first() =~= t);
    assert(s[0] == x);
    lemma_split_contains(c, s);
    assert(contains_model(c, s));
    assert forall|i: int| 0 <= i < u.len() implies !#[trigger] contains_model(u[i], s) by {
        lemma_split_contains(u[i], s);
        if contains_model(u[i], s) {
            let k = choose|k: int| 0 <= k < idx.len() && idx[k] == i;
            assert(ru[k] == reduce_model(u[i], ReductionModel::exact(x)));
            assert(contains_model(ru[k], t));
        }
    }
}

/// The empty constraint list holds every state of length zero.
proof fn lemma_empty_contains(c: Seq<PcModel>, s: Seq<ValueModel>)
    requires
        c.len() == 0,
        s.len() == 0,
    ensures
        contains_model(c, s),
{
}

/// A union that covers `c` covers it on stacks of every height: a constraint only
/// reads the top of the stack.
pub proof fn lemma_covers_any_state(u: Seq<Seq<PcModel>>, c: Seq<PcModel>, s: Seq<ValueModel>)
    requires
        compatible(u, c),
        covers(u, c),
        contains_model(c, s),
    ensures
        exists|i: int| 0 <= i < u.len() && #[trigger] contains_model(u[i], s),
{
    let n = c.len() as int;
    let w = s.subrange(s.len() - n, s.len() as int);
    assert(w.subrange(0, n) =~= w);
    assert(contains_model(c, w)) by {
        assert forall|j: int| #![trigger c[j]] 0 <= j < n implies element_matches(c, w, j) by {
            assert(element_matches(c, s.subrange(s.len() - n, s.len() as int), j));
        }
    }
    let i = choose|i: int| 0 <= i < u.len() && #[trigger] contains_model(u[i], w);
    assert(u[i].len() == n);
    assert(contains_model(u[i], s)) by {
        assert forall|j: int| #![trigger u[i][j]] 0 <= j < n implies element_matches(
            u[i],
            s.subrange(s.len() - n, s.len() as int),
            j,
        ) by {
            assert(element_matches(u[i], w, j));
        }
    }
}

/// A state that gives each exact element its value and every other position a
/// fixed value of its kind.
pub open spec fn sample_state(c: Seq<PcModel>) -> Seq<ValueModel> {
    Seq::new(
        c.len(),
        |j: int|
            match c[j] {
                PcModel::ExactByte(b) => ValueModel::Byte(b),
                PcModel::ExactQuotation(q) => ValueModel::Quotation(q),
                PcModel::AnyByte => ValueModel::Byte(0),
                PcModel::PositionalByte(_) => ValueModel::Byte(0),
                _ => ValueModel::Quotation(Seq::empty()),
            },
    )
}

/// Every well-formed constraint describes a nonempty set, so nothing is covered
/// by the empty union: adding a definition to a name that has none yet always
/// succeeds.
pub proof fn lemma_empty_union_covers_nothing(c: Seq<PcModel>)
    requires
        wf_constraint(c),
    ensures
        !covers(Seq::<Seq<PcModel>>::empty(), c),
{
    let s = sample_state(c);
    assert(s.subrange(0, c.len() as int) =~= s);
    assert forall|j: int| #![trigger c[j]] 0 <= j < c.len() implies element_matches(c, s, j) by {
        match c[j] {
            PcModel::PositionalByte(i) => {
                assert(c[i as int] == PcModel::PositionalByte(i));
            },
            PcModel::PositionalQuotation(i) => {
                assert(c[i as int] == PcModel::PositionalQuotation(i));
            },
            _ => {},
        }
    }
    assert(contains_model(c, s));
}

/// A constraint that is already in the union is covered by it: a second copy of
/// a definition is unreachable.
pub proof fn lemma_member_is_subset(u: Seq<Seq<PcModel>>, c: Seq<PcModel>, i: int)
    requires
        0 <= i < u.len(),
        u[i] == c,
    ensures
        covers(u, c),
{
    assert forall|s: Seq<ValueModel>| s.len() == c.len() && #[trigger] contains_model(c, s) implies exists|k: int|
        0 <= k < u.len() && #[trigger] contains_model(u[k], s) by {
        assert(contains_model(u[i], s));
    }
}

/// `a` holds an unconstrained element of the kind of each position of `c`.
pub open spec fn all_any_like(a: Seq<PcModel>, c: Seq<PcModel>) -> bool {
    &&& a.len() == c.len()
    &&& forall|j: int|
        0 <= j < a.len() ==> #[trigger] a[j] == (if c[j].is_byte() {
            PcModel::AnyByte
        } else {
            PcModel::AnyQuotation
        })
}

/// A union that holds a constraint of only Any elements of the right kinds covers
/// every constraint of that shape: once `name (@ @ ...)` is defined, later
/// definitions of that shape are unreachable.
pub proof fn lemma_any_covers_all(u: Seq<Seq<PcModel>>, c: Seq<PcModel>, i: int)
    requires
        0 <= i < u.len(),
        all_any_like(u[i], c),
    ensures
        covers(u, c),
{
    let n = c.len() as int;
    assert forall|s: Seq<ValueModel>| s.len() == c.len() && #[trigger] contains_model(c, s) implies exists|k: int|
        0 <= k < u.len() && #[trigger] contains_model(u[k], s) by {
        assert(s.subrange(0, n) =~= s);
        assert forall|j: int| #![trigger u[i][j]] 0 <= j < n implies element_matches(u[i], s, j) by {
            assert(element_matches(c, s, j));
            lemma_matches_kind(c, s, j);
        }
        assert(contains_model(u[i], s));
    }
}

/// The union with every constraint reduced by `v`.
pub open spec fn reduce_union(u: Seq<Seq<PcModel>>, v: ReductionModel) -> Seq<Seq<PcModel>> {
    u.map_values(|c: Seq<PcModel>| reduce_model(c, v))
}

/// Some value of `l` is `x`.
pub open spec fn listed_value(l: Seq<StackValue>, x: ValueModel) -> bool {
    exists|k: int| #![trigger l[k]] 0 <= k < l.len() && l[k]@ == x
}

/// Some string of `l` has the content `q`.
pub open spec fn listed_text(l: Seq<String>, q: Seq<char>) -> bool {
    exists|k: int| #![trigger l[k]] 0 <= k < l.len() && l[k]@ == q
}

/// The value `x` is among the values `l` to be tried for a first position, or
/// neither `x` nor some value of `l` is named by `u` or `c`.
pub open spec fn tried(
    u: Seq<Seq<PcModel>>,
    c: Seq<PcModel>,
    l: Seq<StackValue>,
    x: ValueModel,
) -> bool {
    ||| listed_value(l, x)
    ||| !mentioned(u, c, x) && exists|k: int|
        #![trigger l[k]]
        0 <= k < l.len() && !mentioned(u, c, l[k]@)
}

/// When every value that the free first position of `c` can take is tried, and
/// every tried value is covered, the union covers `c`.
proof fn lemma_free_covered(u: Seq<Seq<PcModel>>, c: Seq<PcModel>, l: Seq<StackValue>)
    requires
        compatible(u, c),
        c.len() > 0,
        forall|x: ValueModel|
            (x is Byte) == c[0].is_byte() ==> #[trigger] tried(u, c, l, x),
        forall|k: int| 0 <= k < l.len() ==> ((#[trigger] l[k])@ is Byte) == c[0].is_byte(),
        forall|k: int| 0 <= k < l.len() ==> covers_from(u, c, (#[trigger] l[k])@),
    ensures
        covers(u, c),
{
    assert forall|s: Seq<ValueModel>| s.len() == c.len() && #[trigger] contains_model(c, s) implies exists|i: int|
        0 <= i < u.len() && #[trigger] contains_model(u[i], s) by {
        assert(s.subrange(0, c.len() as int) =~= s);
        assert(element_matches(c, s, 0));
        lemma_matches_kind(c, s, 0);
        let x = s[0];
        assert(tried(u, c, l, x));
        if listed_value(l, x) {
            let k = choose|k: int| 0 <= k < l.len() && #[trigger] l[k]@ == x;
            assert(covers_from(u, c, l[k]@));
        } else {
            let k = choose|k: int| 0 <= k < l.len() && !mentioned(u, c, (#[trigger] l[k])@);
            let y = l[k]@;
            let s2 = swap_state(x, y, s);
            assert(same_kind(x, y));
            lemma_swap_contains(c, x, y, s);
            assert(s2[0] == y);
            assert(covers_from(u, c, y));
            assert(contains_model(c, s2));
            let i = choose|i: int| 0 <= i < u.len() && #[trigger] contains_model(u[i], s2);
            assert(!mentions(u[i], x));
            assert(!mentions(u[i], y));
            lemma_swap_contains(u[i], x, y, s);
            assert(contains_model(u[i], s));
        }
    }
}

/// Whether a first position `p` accepts the value `x`.
fn accepts_value(p: &PositionalConstraint, x: &StackValue) -> (r: bool)
    ensures
        r == accepts(p@, x@),
{
    reveal(accepts);
    match (p, x) {
        (PositionalConstraint::AnyByte, StackValue::Byte(_)) => true,
        (PositionalConstraint::PositionalByte(_), StackValue::Byte(_)) => true,
        (PositionalConstraint::ExactByte(a), StackValue::Byte(b)) => *a == *b,
        (PositionalConstraint::AnyQuotation, StackValue::Quotation(_)) => true,
        (PositionalConstraint::PositionalQuotation(_), StackValue::Quotation(_)) => true,
        (PositionalConstraint::ExactQuotation(a), StackValue::Quotation(b)) => *a == *b,
        _ => false,
    }
}

/// Marks in `seen` every byte that `c` names as an exact element.
fn mark_bytes(c: &Constraint, seen: &mut Vec<bool>)
    requires
        old(seen)@.len() == 256,
    ensures
        final(seen)@.len() == 256,
        forall|b: u8|
            #![trigger final(seen)@[b as int]]
            (old(seen)@[b as int] || mentions(c@, ValueModel::Byte(b))) ==> final(seen)@[b as int],
{
    let ghost s0 = seen@;
    let items = c.iter();
    let n = items.len();
    for j in 0..n
        invariant
            n == items@.len(),
            pcs_model(items@) == c@,
            seen@.len() == 256,
            forall|b: u8|
                #![trigger seen@[b as int]]
                (s0[b as int] || exists|jj: int|
                    #![trigger c@[jj]]
                    0 <= jj < j && c@[jj].exact_value() == Some(ValueModel::Byte(b)))
                    ==> seen@[b as int],
    {
        assert(c@[j as int] == items@[j as int]@);
        let ghost before = seen@;
        if let PositionalConstraint::ExactByte(b) = &items[j] {
            seen.set(*b as usize, true);
        }
        proof {
            assert forall|b: u8|
                (s0[b as int] || exists|jj: int|
                    #![trigger c@[jj]]
                    0 <= jj < j + 1 && c@[jj].exact_value() == Some(ValueModel::Byte(b)))
                    implies #[trigger] seen@[b as int] by {
                if before[b as int] {
                } else if c@[j as int].exact_value() == Some(ValueModel::Byte(b)) {
                } else {
                    assert(!(s0[b as int] || exists|jj: int|
                        #![trigger c@[jj]]
                        0 <= jj < j && c@[jj].exact_value() == Some(ValueModel::Byte(b))));
                }
            }
        }
    }
}

/// Appends to `out` every string that `c` names as an exact element.
fn collect_quotations(c: &Constraint, out: &mut Vec<String>)
    ensures
        forall|q: Seq<char>|
            #![trigger listed_text(final(out)@, q)]
            (listed_text(old(out)@, q) || mentions(c@, ValueModel::Quotation(q))) ==> listed_text(
                final(out)@,
                q,
            ),
{
    let ghost o0 = out@;
    let items = c.iter();
    let n = items.len();
    for j in 0..n
        invariant
            n == items@.len(),
            pcs_model(items@) == c@,
            forall|q: Seq<char>|
                #![trigger listed_text(out@, q)]
                (listed_text(o0, q) || exists|jj: int|
                    #![trigger c@[jj]]
                    0 <= jj < j && c@[jj].exact_value() == Some(ValueModel::Quotation(q)))
                    ==> listed_text(out@, q),
    {
        assert(c@[j as int] == items@[j as int]@);
        let ghost before = out@;
        if let PositionalConstraint::ExactQuotation(q) = &items[j] {
            out.push(q.clone());
        }
        proof {
            assert forall|q: Seq<char>|
                (listed_text(o0, q) || exists|jj: int|
                    #![trigger c@[jj]]
                    0 <= jj < j + 1 && c@[jj].exact_value() == Some(ValueModel::Quotation(q)))
                    implies #[trigger] listed_text(out@, q) by {
                if listed_text(before, q) {
                    let k = choose|k: int| 0 <= k < before.len() && #[trigger] before[k]@ == q;
                    assert(out@[k] == before[k]);
                } else {
                    assert(!(listed_text(o0, q) || exists|jj: int|
                        #![trigger c@[jj]]
                        0 <= jj < j && c@[jj].exact_value() == Some(ValueModel::Quotation(q))));
                    assert(c@[j as int].exact_value() == Some(ValueModel::Quotation(q)));
                    assert(out@[before.len() as int]@ == q);
                }
            }
        }
    }
}

/// A string longer than every string of `l`.
fn longer_text(l: &Vec<String>) -> (r: String)
    ensures
        forall|k: int| 0 <= k < l@.len() ==> (#[trigger] l@[k])@.len() < r@.len(),
{
    let mut longest: usize = 0;
    let n = l.len();
    for k in 0..n
        invariant
            n == l@.len(),
            forall|kk: int| 0 <= kk < k ==> (#[trigger] l@[kk])@.len() <= longest,
    {
        let m = l[k].as_str().unicode_len();
        if m > longest {
            longest = m;
        }
    }
    let mut r = String::new();
    push_char(&mut r, 'x');
    let mut i: usize = 0;
    while i < longest
        invariant
            i <= longest,
            r@.len() == i + 1,
        decreases longest - i,
    {
        push_char(&mut r, 'x');
        i += 1;
    }
    r
}

/// Represents the set union of [`Constraint`] structs.
///
/// [`Union::find_constraint`] finds the first constraint in the union that matches a given state.
///
/// [`Union::is_subset`] (called via [`Union::try_push`]) is used to check if a new definition
/// constraint is already completely covered by the existing constraints (and thus inaccessible).
#[derive(Debug, Clone, PartialEq, Eq, Hash)]
pub struct Union(Vec<Constraint>);

/// The model of a list of constraints.
pub open spec fn constraints_model(v: Seq<Constraint>) -> Seq<Seq<PcModel>> {
    v.map_values(|c: Constraint| c@)
}

impl View for Union {
    type V = Seq<Seq<PcModel>>;

    closed spec fn view(&self) -> Seq<Seq<PcModel>> {
        constraints_model(self.0@)
    }
}

impl Union {
    /// Create a new empty union of constraints
    pub fn new() -> (u: Self)
        ensures
            u@ == Seq::<Seq<PcModel>>::empty(),
    {
        let u = Union(Vec::new());
        assert(u@ =~= Seq::<Seq<PcModel>>::empty());
        u
    }

    /// Builds a union from constraints, keeping their order.
    pub fn from_constraints(constraints: Vec<Constraint>) -> (u: Self)
        ensures
            u@ == constraints_model(constraints@),
    {
        Union(constraints)
    }

    /// Returns the number of constraints in the union.
    pub fn len(&self) -> (r: usize)
        ensures
            r == self@.len(),
    {
        self.0.len()
    }

    /// Get the index of the first constraint in the union that contains the given state.
    ///
    /// Returns `Some(index)` if a matching constraint is found, or `None` otherwise.
    pub fn find_constraint(&self, state: &[StackValue]) -> (r: Option<usize>)
        requires
            forall|i: int| 0 <= i < self@.len() ==> wf_constraint(#[trigger] self@[i]),
        ensures
            match r {
                Some(i) => i < self@.len() && contains_model(
                    self@[i as int],
                    state@.map_values(|v: StackValue| v@),
                ) && forall|j: int|
                    0 <= j < i ==> !contains_model(
                        #[trigger] self@[j],
                        state@.map_values(|v: StackValue| v@),
                    ),
                None => forall|j: int|
                    0 <= j < self@.len() ==> !contains_model(
                        #[trigger] self@[j],
                        state@.map_values(|v: StackValue| v@),
                    ),
            },
    {
        let n = self.0.len();
        for i in 0..n
            invariant
                n == self@.len(),
                self@ == constraints_model(self.0@),
                forall|i: int| 0 <= i < self@.len() ==> wf_constraint(#[trigger] self@[i]),
                forall|j: int|
                    0 <= j < i ==> !contains_model(
                        #[trigger] self@[j],
                        state@.map_values(|v: StackValue| v@),
                    ),
        {
            assert(self@[i as int] == self.0@[i as int]@);
            if self.0[i].contains(state) {
                return Some(i);
            }
        }
        None
    }

    /// Check that the inner constraints have the given length.
    pub fn check_len(&self, len: usize) -> (r: bool)
        ensures
            r == forall|i: int| 0 <= i < self@.len() ==> #[trigger] self@[i].len() == len,
    {
        let n = self.0.len();
        for i in 0..n
            invariant
                n == self@.len(),
                self@ == constraints_model(self.0@),
                forall|j: int| 0 <= j < i ==> #[trigger] self@[j].len() == len,
        {
            assert(self@[i as int] == self.0@[i as int]@);
            if self.0[i].len() != len {
                return false;
            }
        }
        true
    }

    /// Adds a new constraint if it isn't already a subset of the existing constraints.
    ///
    /// Returns whether the constraint was added.
    pub fn try_push(&mut self, constraint: Constraint) -> (r: bool)
        requires
            compatible(old(self)@, constraint@),
        ensures
            r == !covers(old(self)@, constraint@),
            final(self)@ == (if r {
                old(self)@.push(constraint@)
            } else {
                old(self)@
            }),
    {
        if self.is_subset(&constraint) {
            return false;
        }
        self.push(constraint);
        true
    }

    /// Adds a new constraint to the union.
    pub fn push(&mut self, constraint: Constraint)
        ensures
            final(self)@ == old(self)@.push(constraint@),
    {
        self.0.push(constraint);
        assert(self@ =~= old(self)@.push(constraint@));
    }

    /// Reduces this union of constraints by giving a specific value to the first positional constraint
    pub fn reduce(&self, v: &Reduction) -> (r: Union)
        requires
            forall|i: int|
                0 <= i < self@.len() ==> wf_constraint(#[trigger] self@[i]) && reducible(
                    self@[i],
                    v@,
                ),
        ensures
            r@ == reduce_union(self@, v@),
    {
        let n = self.0.len();
        let mut out: Vec<Constraint> = Vec::new();
        for i in 0..n
            invariant
                n == self@.len(),
                self@ == constraints_model(self.0@),
                forall|i: int|
                    0 <= i < self@.len() ==> wf_constraint(#[trigger] self@[i]) && reducible(
                        self@[i],
                        v@,
                    ),
                out@.len() == i,
                forall|j: int| 0 <= j < i ==> #[trigger] out@[j]@ == reduce_model(self@[j], v@),
        {
            assert(self@[i as int] == self.0@[i as int]@);
            out.push(self.0[i].reduce(v));
        }
        let r = Union(out);
        assert(r@ =~= reduce_union(self@, v@));
        r
    }

    /// Checks if a new constraint is a subset of the existing constraints: whether
    /// every stack state in its set is in the set of some constraint of the union.
    ///
    /// The first position is given, in turn, each value that can make a
    /// difference: its exact value, or else every value that the constraints name
    /// and one value that none of them names. Each value leaves the constraints
    /// whose first position accepts it, reduced by it, and the check goes on with
    /// the remaining positions.
    pub fn is_subset(&self, constraint: &Constraint) -> (r: bool)
        requires
            compatible(self@, constraint@),
        ensures
            r == covers(self@, constraint@),
        decreases constraint@.len(),
    {
        let ghost u = self@;
        let ghost c = constraint@;
        // Base case (length 0 constraints)
        //
        // Length 0 constraint unions can only contain at most 1 constraint
        //
        // ```
        // foo == ...; // unreachable
        // foo == ...; // reachable
        // ```
        if constraint.is_empty() {
            proof {
                lemma_empty_contains(c, Seq::empty());
                if u.len() > 0 {
                    assert forall|s: Seq<ValueModel>|
                        s.len() == c.len() && #[trigger] contains_model(c, s) implies exists|i: int|
                        0 <= i < u.len() && #[trigger] contains_model(u[i], s) by {
                        lemma_empty_contains(u[0], s);
                    }
                }
            }
            return self.0.len() != 0;
        }
        let first = constraint.first();
        if let Some(x) = first.exact_value() {
            proof {
                reveal(accepts);
            }
            let (ru, rc, Ghost(idx)) = self.split_at(constraint, &x);
            let r = ru.is_subset(&rc);
            proof {
                if r {
                    lemma_branch_covered(u, c, x@, ru@, idx);
                    assert forall|s: Seq<ValueModel>|
                        s.len() == c.len() && #[trigger] contains_model(c, s) implies exists|i: int|
                        0 <= i < u.len() && #[trigger] contains_model(u[i], s) by {
                        assert(s.subrange(0, c.len() as int) =~= s);
                        assert(element_matches(c, s, 0));
                        assert(s[0] == x@);
                    }
                } else {
                    lemma_branch_uncovered(u, c, x@, ru@, idx);
                }
            }
            return r;
        }
        let cands = if first.is_byte() {
            self.byte_candidates(constraint)
        } else {
            self.quotation_candidates(constraint)
        };
        let nc = cands.len();
        for k in 0..nc
            invariant
                u == self@,
                c == constraint@,
                compatible(u, c),
                c.len() > 0,
                c[0].exact_value() is None,
                nc == cands@.len(),
                forall|kk: int| 0 <= kk < nc ==> ((#[trigger] cands@[kk])@ is Byte) == c[0].is_byte(),
                forall|kk: int| 0 <= kk < k ==> covers_from(u, c, (#[trigger] cands@[kk])@),
        {
            let x = &cands[k];
            assert(((cands@[k as int])@ is Byte) == c[0].is_byte());
            proof {
                reveal(accepts);
            }
            let (ru, rc, Ghost(idx)) = self.split_at(constraint, x);
            let r = ru.is_subset(&rc);
            if !r {
                proof {
                    lemma_branch_uncovered(u, c, x@, ru@, idx);
                }
                return false;
            }
            proof {
                lemma_branch_covered(u, c, x@, ru@, idx);
            }
        }
        proof {
            lemma_free_covered(u, c, cands@);
        }
        true
    }

    /// The constraints whose first position accepts `x`, each reduced by `x`, with
    /// the position in the union of each, and `constraint` reduced by `x`.
    fn split_at(&self, constraint: &Constraint, x: &StackValue) -> (res: (
        Union,
        Constraint,
        Ghost<Seq<int>>,
    ))
        requires
            compatible(self@, constraint@),
            constraint@.len() > 0,
            accepts(constraint@[0], x@),
        ensures
            splits(self@, x@, res.0@, res.2@),
            res.1@ == reduce_model(constraint@, ReductionModel::exact(x@)),
            compatible(res.0@, res.1@),
            res.1@.len() == constraint@.len() - 1,
    {
        let ghost u = self@;
        let ghost c = constraint@;
        let ghost v = ReductionModel::exact(x@);
        let n = self.0.len();
        let mut out: Vec<Constraint> = Vec::new();
        let ghost mut idx: Seq<int> = Seq::empty();
        let mut i: usize = 0;
        while i < n
            invariant
                i <= n,
                n == u.len(),
                u == self@,
                u == constraints_model(self.0@),
                c == constraint@,
                compatible(u, c),
                c.len() > 0,
                v == ReductionModel::exact(x@),
                out@.len() == idx.len(),
                forall|k: int|
                    #![trigger idx[k]]
                    0 <= k < out@.len() ==> 0 <= idx[k] < i && accepts(u[idx[k]][0], x@)
                        && out@[k]@ == reduce_model(u[idx[k]], v),
                forall|j: int|
                    #![trigger u[j]]
                    0 <= j < i && accepts(u[j][0], x@) ==> exists|k: int|
                        0 <= k < idx.len() && idx[k] == j,
            decreases n - i,
        {
            assert(u[i as int] == self.0@[i as int]@);
            assert(u[i as int].len() == c.len());
            let m = &self.0[i];
            let ghost old_idx = idx;
            let ghost old_out = out@;
            if accepts_value(m.first(), x) {
                let red = Reduction::from(x.duplicate());
                assert(red@ == v);
                proof {
                    reveal(accepts);
                }
                let r = m.reduce(&red);
                proof {
                    idx = idx.push(i as int);
                }
                out.push(r);
            }
            proof {
                assert forall|k: int|
                    #![trigger idx[k]]
                    0 <= k < out@.len() implies 0 <= idx[k] < i + 1 && accepts(u[idx[k]][0], x@)
                        && out@[k]@ == reduce_model(u[idx[k]], v) by {
                    if k < old_out.len() {
                        assert(out@[k] == old_out[k]);
                        assert(idx[k] == old_idx[k]);
                    }
                }
                assert forall|j: int|
                    #![trigger u[j]]
                    0 <= j < i + 1 && accepts(u[j][0], x@) implies exists|k: int|
                    0 <= k < idx.len() && idx[k] == j by {
                    if j < i {
                        let k = choose|k: int| 0 <= k < old_idx.len() && old_idx[k] == j;
                        assert(idx[k] == j);
                    } else {
                        assert(idx[old_idx.len() as int] == j);
                    }
                }
            }
            i += 1;
        }
        let red = Reduction::from(x.duplicate());
        assert(red@ == v);
        proof {
            reveal(accepts);
        }
        let rc = constraint.reduce(&red);
        let ru = Union(out);
        proof {
            lemma_reduce_wf(c, v);
            assert forall|k: int| #![trigger idx[k]] 0 <= k < ru@.len() implies 0 <= idx[k] < u.len()
                && accepts(u[idx[k]][0], x@) && ru@[k] == reduce_model(u[idx[k]], v) by {
                assert(ru@[k] == out@[k]@);
            }
            assert forall|k: int| #![trigger ru@[k]] 0 <= k < ru@.len() implies wf_constraint(
                ru@[k],
            ) && ru@[k].len() == rc@.len() by {
                assert(ru@[k] == out@[k]@);
                reveal(accepts);
                lemma_reduce_wf(u[idx[k]], v);
            }
        }
        (ru, rc, Ghost(idx))
    }

    /// The bytes to give a free first position: every byte that the union or
    /// `constraint` names, and one byte that none of them names, if one is left.
    fn byte_candidates(&self, constraint: &Constraint) -> (r: Vec<StackValue>)
        ensures
            forall|k: int| 0 <= k < r@.len() ==> ((#[trigger] r@[k])@ is Byte),
            forall|x: ValueModel|
                (x is Byte) ==> #[trigger] tried(self@, constraint@, r@, x),
    {
        let ghost u = self@;
        let ghost c = constraint@;
        let mut seen: Vec<bool> = Vec::new();
        for b in 0..256usize
            invariant
                seen@.len() == b,
        {
            seen.push(false);
        }
        mark_bytes(constraint, &mut seen);
        let n = self.0.len();
        for i in 0..n
            invariant
                n == u.len(),
                u == self@,
                u == constraints_model(self.0@),
                c == constraint@,
                seen@.len() == 256,
                forall|b: u8|
                    #![trigger seen@[b as int]]
                    (mentions(c, ValueModel::Byte(b)) || exists|ii: int|
                        0 <= ii < i && mentions(#[trigger] u[ii], ValueModel::Byte(b)))
                        ==> seen@[b as int],
        {
            assert(u[i as int] == self.0@[i as int]@);
            let ghost before = seen@;
            mark_bytes(&self.0[i], &mut seen);
            proof {
                assert forall|b: u8|
                    (mentions(c, ValueModel::Byte(b)) || exists|ii: int|
                        0 <= ii < i + 1 && mentions(#[trigger] u[ii], ValueModel::Byte(b)))
                        implies #[trigger] seen@[b as int] by {
                    if !before[b as int] {
                        assert(!(mentions(c, ValueModel::Byte(b)) || exists|ii: int|
                            0 <= ii < i && mentions(#[trigger] u[ii], ValueModel::Byte(b))));
                        assert(mentions(u[i as int], ValueModel::Byte(b)));
                    }
                }
            }
        }
        let mut out: Vec<StackValue> = Vec::new();
        let mut fresh = false;
        let ghost mut fresh_byte: u8 = 0;
        for b in 0..256usize
            invariant
                seen@.len() == 256,
                forall|k: int| 0 <= k < out@.len() ==> ((#[trigger] out@[k])@ is Byte),
                forall|y: u8|
                    #![trigger seen@[y as int]]
                    (y as int) < b && seen@[y as int] ==> listed_value(
                        out@,
                        ValueModel::Byte(y),
                    ),
                fresh ==> listed_value(out@, ValueModel::Byte(fresh_byte)) && !seen@[fresh_byte as int],
                !fresh ==> forall|y: u8| #![trigger seen@[y as int]] (y as int) < b ==> seen@[y as int],
        {
            let ghost before = out@;
            if seen[b] {
                out.push(StackValue::Byte(b as u8));
            } else if !fresh {
                out.push(StackValue::Byte(b as u8));
                fresh = true;
                proof {
                    fresh_byte = b as u8;
                }
            }
            proof {
                assert forall|y: u8|
                    #![trigger seen@[y as int]]
                    (y as int) < b + 1 && seen@[y as int] implies listed_value(
                        out@,
                        ValueModel::Byte(y),
                    ) by {
                    if (y as int) < b {
                        let k = choose|k: int| 0 <= k < before.len() && #[trigger] before[k]@ == ValueModel::Byte(y);
                        assert(out@[k] == before[k]);
                    } else {
                        assert(out@[before.len() as int]@ == ValueModel::Byte(y));
                    }
                }
                if fresh && listed_value(before, ValueModel::Byte(fresh_byte)) {
                    let k = choose|k: int| 0 <= k < before.len() && #[trigger] before[k]@ == ValueModel::Byte(fresh_byte);
                    assert(out@[k] == before[k]);
                }
                if fresh && !listed_value(before, ValueModel::Byte(fresh_byte)) {
                    assert(out@[before.len() as int]@ == ValueModel::Byte(fresh_byte));
                }
            }
        }
        proof {
            assert forall|x: ValueModel| (x is Byte) implies #[trigger] tried(u, c, out@, x) by {
                let y = x->Byte_0;
                assert(x == ValueModel::Byte(y));
                if !seen@[y as int] {
                    assert(fresh);
                    let k = choose|k: int| 0 <= k < out@.len() && #[trigger] out@[k]@ == ValueModel::Byte(fresh_byte);
                    assert(!mentioned(u, c, out@[k]@));
                    assert(!mentioned(u, c, x));
                }
            }
        }
        out
    }

    /// The strings to give a free first position: every string that the union or
    /// `constraint` names, and one longer than all of them.
    fn quotation_candidates(&self, constraint: &Constraint) -> (r: Vec<StackValue>)
        ensures
            forall|k: int| 0 <= k < r@.len() ==> ((#[trigger] r@[k])@ is Quotation),
            forall|x: ValueModel|
                (x is Quotation) ==> #[trigger] tried(self@, constraint@, r@, x),
    {
        let ghost u = self@;
        let ghost c = constraint@;
        let mut qs: Vec<String> = Vec::new();
        collect_quotations(constraint, &mut qs);
        let n = self.0.len();
        for i in 0..n
            invariant
                n == u.len(),
                u == self@,
                u == constraints_model(self.0@),
                c == constraint@,
                forall|q: Seq<char>|
                    #![trigger listed_text(qs@, q)]
                    (mentions(c, ValueModel::Quotation(q)) || exists|ii: int|
                        0 <= ii < i && mentions(#[trigger] u[ii], ValueModel::Quotation(q)))
                        ==> listed_text(qs@, q),
        {
            assert(u[i as int] == self.0@[i as int]@);
            let ghost before = qs@;
            collect_quotations(&self.0[i], &mut qs);
            proof {
                assert forall|q: Seq<char>|
                    (mentions(c, ValueModel::Quotation(q)) || exists|ii: int|
                        0 <= ii < i + 1 && mentions(#[trigger] u[ii], ValueModel::Quotation(q)))
                        implies #[trigger] listed_text(qs@, q) by {
                    if !listed_text(before, q) {
                        assert(!(mentions(c, ValueModel::Quotation(q)) || exists|ii: int|
                            0 <= ii < i && mentions(#[trigger] u[ii], ValueModel::Quotation(q))));
                        assert(mentions(u[i as int], ValueModel::Quotation(q)));
                    }
                }
            }
        }
        let fresh = longer_text(&qs);
        let ghost fresh_text = fresh@;
        let mut out: Vec<StackValue> = Vec::new();
        let m = qs.len();
        for k in 0..m
            invariant
                m == qs@.len(),
                out@.len() == k,
                forall|kk: int| 0 <= kk < k ==> (#[trigger] out@[kk])@ == ValueModel::Quotation(qs@[kk]@),
        {
            out.push(StackValue::Quotation(qs[k].clone()));
        }
        out.push(StackValue::Quotation(fresh));
        proof {
            assert(out@[m as int]@ == ValueModel::Quotation(fresh_text));
            assert forall|x: ValueModel| (x is Quotation) implies #[trigger] tried(u, c, out@, x) by {
                let q = x->Quotation_0;
                assert(x == ValueModel::Quotation(q));
                if listed_text(qs@, q) {
                    let k = choose|k: int| 0 <= k < qs@.len() && #[trigger] qs@[k]@ == q;
                    assert(out@[k]@ == x);
                } else {
                    assert(!mentioned(u, c, x));
                    if mentioned(u, c, out@[m as int]@) {
                        assert(listed_text(qs@, fresh_text));
                        let k = choose|k: int| 0 <= k < qs@.len() && #[trigger] qs@[k]@ == fresh_text;
                        assert(qs@[k]@.len() < fresh_text.len());
                    }
                }
            }
        }
        out
    }
}

} // verus!
