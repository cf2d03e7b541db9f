use vstd::prelude::*;

use super::positional::{PcModel, PositionalConstraint};
use super::{Reduction, ReductionModel, StackValue, ValueModel};

verus! {

/// A positional constraint list is well formed when every positional element
/// names the index of the first occurrence of its variable.
pub open spec fn wf_constraint(c: Seq<PcModel>) -> bool {
    forall|j: int|
        #![trigger c[j]]
        0 <= j < c.len() ==> match c[j] {
            PcModel::PositionalByte(i) => i <= j && c[i as int] == PcModel::PositionalByte(i),
            PcModel::PositionalQuotation(i) => i <= j && c[i as int]
                == PcModel::PositionalQuotation(i),
            _ => true,
        }
}

/// Whether the `j`-th element of the stack window `w` satisfies the `j`-th element of `c`.
pub open spec fn element_matches(c: Seq<PcModel>, w: Seq<ValueModel>, j: int) -> bool {
    match c[j] {
        PcModel::AnyByte => w[j] is Byte,
        PcModel::AnyQuotation => w[j] is Quotation,
        PcModel::PositionalByte(i) => w[j] is Byte && w[i as int] == w[j],
        PcModel::PositionalQuotation(i) => w[j] is Quotation && w[i as int] == w[j],
        PcModel::ExactByte(b) => w[j] == ValueModel::Byte(b),
        PcModel::ExactQuotation(q) => w[j] == ValueModel::Quotation(q),
    }
}

/// A state is an element of the set described by `c` when the top `c.len()`
/// values of the state satisfy the constraints position by position.
pub open spec fn contains_model(c: Seq<PcModel>, state: Seq<ValueModel>) -> bool {
    c.len() <= state.len() && {
        let w = state.subrange(state.len() - c.len(), state.len() as int);
        forall|j: int| #![trigger c[j]] 0 <= j < c.len() ==> element_matches(c, w, j)
    }
}

/// Index of the first occurrence of `p` in `s`, or `-1`.
pub open spec fn first_index(s: Seq<PcModel>, p: PcModel) -> int
    decreases s.len(),
{
    if s.len() == 0 {
        -1
    } else if s[0] == p {
        0
    } else {
        let k = first_index(s.drop_first(), p);
        if k < 0 {
            -1
        } else {
            k + 1
        }
    }
}

/// The image of one element of the tail when the first position receives `v`.
pub open spec fn reduce_element(p: PcModel, v: ReductionModel, k: int) -> PcModel {
    if v.is_byte() {
        match p {
            PcModel::PositionalByte(n) => if n == 0 {
                match v {
                    ReductionModel::ExactByte(b) => PcModel::ExactByte(b),
                    _ => PcModel::PositionalByte(k as usize),
                }
            } else {
                PcModel::PositionalByte((n - 1) as usize)
            },
            PcModel::PositionalQuotation(n) => PcModel::PositionalQuotation((n - 1) as usize),
            _ => p,
        }
    } else {
        match p {
            PcModel::PositionalQuotation(n) => if n == 0 {
                match v {
                    ReductionModel::ExactQuotation(q) => PcModel::ExactQuotation(q),
                    _ => PcModel::PositionalQuotation(k as usize),
                }
            } else {
                PcModel::PositionalQuotation((n - 1) as usize)
            },
            PcModel::PositionalByte(n) => PcModel::PositionalByte((n - 1) as usize),
            _ => p,
        }
    }
}

/// The variable of the first position, as it appears in the tail.
pub open spec fn first_variable(v: ReductionModel) -> PcModel {
    if v.is_byte() {
        PcModel::PositionalByte(0)
    } else {
        PcModel::PositionalQuotation(0)
    }
}

/// The constraint obtained by assigning `v` to the first position of `c`: the
/// first position is dropped, later uses of its variable become `v` (or a new
/// variable at their first occurrence when `v` is not exact), and every other
/// variable index moves down by one.
pub open spec fn reduce_model(c: Seq<PcModel>, v: ReductionModel) -> Seq<PcModel> {
    let tail = c.drop_first();
    let k = first_index(tail, first_variable(v));
    Seq::new(tail.len(), |j: int| reduce_element(tail[j], v, k))
}

/// Whether the first element of `c` has the same kind as `v`.
pub open spec fn reducible(c: Seq<PcModel>, v: ReductionModel) -> bool {
    c.len() > 0 && c[0].is_byte() == v.is_byte()
}

pub proof fn lemma_first_index(s: Seq<PcModel>, p: PcModel)
    ensures
        -1 <= first_index(s, p) < s.len(),
        first_index(s, p) >= 0 ==> s[first_index(s, p)] == p,
        first_index(s, p) >= 0 ==> forall|i: int|
            0 <= i < first_index(s, p) ==> s[i] != p,
        first_index(s, p) < 0 ==> forall|i: int| 0 <= i < s.len() ==> s[i] != p,
    decreases s.len(),
{
    if s.len() > 0 && s[0] != p {
        lemma_first_index(s.drop_first(), p);
        let k = first_index(s.drop_first(), p);
        assert forall|i: int| 0 < i < s.len() implies s[i] == s.drop_first()[i - 1] by {}
        if k < 0 {
            assert forall|i: int| 0 <= i < s.len() implies s[i] != p by {
                if i > 0 {
                    assert(s[i] == s.drop_first()[i - 1]);
                }
            }
        }
    }
}

/// Reduction keeps constraints well formed and keeps the kind of every remaining position.
pub proof fn lemma_reduce_wf(c: Seq<PcModel>, v: ReductionModel)
    requires
        wf_constraint(c),
        c.len() <= usize::MAX,
        reducible(c, v),
    ensures
        wf_constraint(reduce_model(c, v)),
        reduce_model(c, v).len() == c.len() - 1,
        forall|j: int|
            #![trigger reduce_model(c, v)[j]]
            0 <= j < c.len() - 1 ==> reduce_model(c, v)[j].is_byte() == c[j + 1].is_byte(),
{
    let tail = c.drop_first();
    let p = first_variable(v);
    let k = first_index(tail, p);
    let r = reduce_model(c, v);
    lemma_first_index(tail, p);
    assert(c[0].is_byte() == v.is_byte());
    assert forall|j: int| 0 <= j < r.len() implies #[trigger] r[j].is_byte() == c[j + 1].is_byte() by {
        assert(tail[j] == c[j + 1]);
    }
    assert forall|j: int| #![trigger r[j]] 0 <= j < r.len() implies match r[j] {
        PcModel::PositionalByte(i) => i <= j && r[i as int] == PcModel::PositionalByte(i),
        PcModel::PositionalQuotation(i) => i <= j && r[i as int] == PcModel::PositionalQuotation(i),
        _ => true,
    } by {
        assert(tail[j] == c[j + 1]);
        assert(r[j] == reduce_element(tail[j], v, k));
        let cj = c[j + 1];
        match cj {
            PcModel::PositionalByte(n) => {
                assert(n <= j + 1 && c[n as int] == PcModel::PositionalByte(n));
                if n == 0 {
                    assert(c[0].is_byte());
                    assert(v.is_byte());
                    assert(tail[j] == p);
                    assert(0 <= k <= j);
                    assert(tail[k] == p);
                    assert(r[k] == reduce_element(tail[k], v, k));
                    if !(v is ExactByte) {
                        assert(r[j] == PcModel::PositionalByte(k as usize));
                        assert(r[k] == PcModel::PositionalByte(k as usize));
                    }
                } else {
                    assert(tail[n - 1] == c[n as int]);
                    assert(r[n - 1] == reduce_element(tail[n - 1], v, k));
                    assert(r[j] == PcModel::PositionalByte((n - 1) as usize));
                    assert(r[n - 1] == PcModel::PositionalByte((n - 1) as usize));
                }
            },
            PcModel::PositionalQuotation(n) => {
                assert(n <= j + 1 && c[n as int] == PcModel::PositionalQuotation(n));
                if n == 0 {
                    assert(!c[0].is_byte());
                    assert(!v.is_byte());
                    assert(tail[j] == p);
                    assert(0 <= k <= j);
                    assert(tail[k] == p);
                    assert(r[k] == reduce_element(tail[k], v, k));
                    if !(v is ExactQuotation) {
                        assert(r[j] == PcModel::PositionalQuotation(k as usize));
                        assert(r[k] == PcModel::PositionalQuotation(k as usize));
                    }
                } else {
                    assert(tail[n - 1] == c[n as int]);
                    assert(r[n - 1] == reduce_element(tail[n - 1], v, k));
                    assert(r[j] == PcModel::PositionalQuotation((n - 1) as usize));
                    assert(r[n - 1] == PcModel::PositionalQuotation((n - 1) as usize));
                }
            },
            _ => {},
        }
    }
}

/// Each definition may have an associated set of constraints, such that if the current stack state
/// is in the set of constraints, the definition is applicable.
///
/// Mathematically, constraints are a set of tuples of bytes & quotations, and a definition is applicable
/// to a state S if S ∈ C, where C is the set of constraints. The set is represented as a list of
/// positional constraints.
#[derive(Debug, Clone, PartialEq, Eq, Hash)]
pub struct Constraint(Vec<PositionalConstraint>);

/// The model of a list of positional constraints.
pub open spec fn pcs_model(v: Seq<PositionalConstraint>) -> Seq<PcModel> {
    v.map_values(|p: PositionalConstraint| p@)
}

impl View for Constraint {
    type V = Seq<PcModel>;

    closed spec fn view(&self) -> Seq<PcModel> {
        pcs_model(self.0@)
    }
}

impl Constraint {
    /// Create a new set of constraints.
    ///
    /// Positional elements must point to their first occurrence.
    pub fn new(constraints: Vec<PositionalConstraint>) -> (c: Self)
        requires
            wf_constraint(pcs_model(constraints@)),
        ensures
            c@ == pcs_model(constraints@),
    {
        Constraint(constraints)
    }

    /// Returns the length of the constraint
    pub fn len(&self) -> (r: usize)
        ensures
            r == self@.len(),
    {
        self.0.len()
    }

    /// Returns if the constraint is empty
    pub fn is_empty(&self) -> (r: bool)
        ensures
            r == (self@.len() == 0),
    {
        self.0.len() == 0
    }

    /// Returns the positional constraints in order.
    pub fn iter(&self) -> (r: &[PositionalConstraint])
        ensures
            pcs_model(r@) == self@,
    {
        self.0.as_slice()
    }

    /// Returns the first positional constraint.
    pub fn first(&self) -> (r: &PositionalConstraint)
        requires
            self@.len() > 0,
        ensures
            r@ == self@[0],
    {
        &self.0[0]
    }

    /// Copies a constraint.
    pub fn duplicate(&self) -> (r: Constraint)
        ensures
            r@ == self@,
    {
        let mut v: Vec<PositionalConstraint> = Vec::new();
        let n = self.0.len();
        for i in 0..n
            invariant
                n == self.0@.len(),
                v@.len() == i,
                forall|j: int| 0 <= j < i ==> #[trigger] v@[j]@ == self.0@[j]@,
        {
            v.push(self.0[i].duplicate());
        }
        assert(pcs_model(v@) =~= pcs_model(self.0@));
        Constraint(v)
    }

    /// Checks if a stack state is an element of this set
    ///
    /// Stack states are sliced to match the length of this constraint
    /// If the constraint is longer than the stack state this method returns false
    pub fn contains(&self, state: &[StackValue]) -> (r: bool)
        requires
            wf_constraint(self@),
        ensures
            r == contains_model(self@, state@.map_values(|v: StackValue| v@)),
    {
        let ghost sm = state@.map_values(|v: StackValue| v@);
        let n = self.0.len();
        if n > state.len() {
            return false;
        }
        let off = state.len() - n;
        let ghost w = sm.subrange(off as int, sm.len() as int);
        let ghost c = self@;
        assert(forall|j: int| 0 <= j < n ==> #[trigger] w[j] == state@[off + j]@);
        assert(forall|j: int| 0 <= j < n ==> #[trigger] c[j] == self.0@[j]@);
        for j in 0..n
            invariant
                n == self.0@.len(),
                n == c.len(),
                off + n == state@.len(),
                off + n == state.len(),
                c == self@,
                c == pcs_model(self.0@),
                wf_constraint(c),
                w == sm.subrange(off as int, sm.len() as int),
                sm == state@.map_values(|v: StackValue| v@),
                forall|jj: int| 0 <= jj < n ==> #[trigger] w[jj] == state@[off + jj]@,
                forall|jj: int| 0 <= jj < n ==> #[trigger] c[jj] == self.0@[jj]@,
                forall|jj: int| #![trigger c[jj]] 0 <= jj < j ==> element_matches(c, w, jj),
        {
            assert(off + j < state@.len());
            let element = &state[off + j];
            assert(c[j as int] == self.0@[j as int]@);
            match &self.0[j] {
                PositionalConstraint::AnyByte => {
                    if !element.is_byte() {
                        return false;
                    }
                },
                PositionalConstraint::AnyQuotation => {
                    if !element.is_quotation() {
                        return false;
                    }
                },
                PositionalConstraint::PositionalByte(index) => {
                    assert(*index <= j);
                    if !element.is_byte() || !state[off + *index].same_as(element) {
                        return false;
                    }
                },
                PositionalConstraint::PositionalQuotation(index) => {
                    assert(*index <= j);
                    if !element.is_quotation() || !state[off + *index].same_as(element) {
                        return false;
                    }
                },
                PositionalConstraint::ExactByte(b) => {
                    if !element.same_as(&StackValue::Byte(*b)) {
                        return false;
                    }
                },
                PositionalConstraint::ExactQuotation(q) => {
                    match element {
                        StackValue::Quotation(s) => {
                            if !(*s == *q) {
                                return false;
                            }
                        },
                        StackValue::Byte(_) => {
                            return false;
                        },
                    }
                },
            }
        }
        true
    }

    /// Reduces this constraint by assigning a specific value to the first positional constraint
    ///
    /// This is used in [`super::Union::is_subset`] to recursively simplify subset problems.
    pub fn reduce(&self, value: &Reduction) -> (r: Constraint)
        requires
            wf_constraint(self@),
            reducible(self@, value@),
        ensures
            r@ == reduce_model(self@, value@),
            wf_constraint(r@),
    {
        let ghost c = self@;
        let ghost tail = c.drop_first();
        let ghost v = value@;
        let n = self.0.len();
        let is_byte = value.is_byte();
        assert(forall|j: int| 0 <= j < n ==> #[trigger] c[j] == self.0@[j]@);
        assert(forall|j: int| 0 <= j < n - 1 ==> #[trigger] tail[j] == c[j + 1]);
        proof {
            lemma_first_index(tail, first_variable(v));
            lemma_reduce_wf(c, v);
        }
        // find the first later use of the first variable
        let mut k: usize = 0;
        let mut found = false;
        let mut i: usize = 1;
        while i < n
            invariant
                1 <= i <= n,
                n == self.0@.len(),
                c == self@,
                tail == c.drop_first(),
                v == value@,
                is_byte == v.is_byte(),
                forall|j: int| 0 <= j < n ==> #[trigger] c[j] == self.0@[j]@,
                found ==> first_index(tail, first_variable(v)) == k as int,
                !found ==> forall|j: int| 0 <= j < i - 1 ==> #[trigger] tail[j] != first_variable(v),
            decreases n - i,
        {
            if !found {
                let hit = match &self.0[i] {
                    PositionalConstraint::PositionalByte(m) => is_byte && *m == 0,
                    PositionalConstraint::PositionalQuotation(m) => !is_byte && *m == 0,
                    _ => false,
                };
                assert(tail[i - 1] == c[i as int]);
                if hit {
                    found = true;
                    k = i - 1;
                    assert(tail[k as int] == first_variable(v));
                    proof {
                        lemma_first_index(tail, first_variable(v));
                        let fi = first_index(tail, first_variable(v));
                        if fi < 0 {
                            assert(tail[k as int] != first_variable(v));
                        }
                        if fi >= 0 && fi < k {
                            assert(tail[fi] != first_variable(v));
                        }
                    }
                }
            }
            i += 1;
        }
        let mut out: Vec<PositionalConstraint> = Vec::new();
        let mut i: usize = 1;
        while i < n
            invariant
                1 <= i <= n,
                n == self.0@.len(),
                c == self@,
                tail == c.drop_first(),
                v == value@,
                is_byte == v.is_byte(),
                wf_constraint(c),
                reducible(c, v),
                out@.len() == i - 1,
                forall|j: int| 0 <= j < n ==> #[trigger] c[j] == self.0@[j]@,
                forall|j: int| 0 <= j < n - 1 ==> #[trigger] tail[j] == c[j + 1],
                forall|j: int|
                    #![trigger out@[j]]
                    0 <= j < i - 1 ==> out@[j]@ == reduce_element(
                        tail[j],
                        v,
                        first_index(tail, first_variable(v)),
                    ),
                found ==> first_index(tail, first_variable(v)) == k as int,
                !found ==> forall|j: int|
                    0 <= j < n - 1 ==> #[trigger] tail[j] != first_variable(v),
            decreases n - i,
        {
            let ghost kk = first_index(tail, first_variable(v));
            assert(tail[i - 1] == c[i as int]);
            let p = &self.0[i];
            let np = if is_byte {
                match p {
                    PositionalConstraint::PositionalByte(m) => {
                        if *m == 0 {
                            assert(tail[i - 1] == first_variable(v));
                            match value.byte() {
                                Some(b) => PositionalConstraint::ExactByte(b),
                                None => PositionalConstraint::PositionalByte(k),
                            }
                        } else {
                            PositionalConstraint::PositionalByte(*m - 1)
                        }
                    },
                    PositionalConstraint::PositionalQuotation(m) => {
                        assert(*m <= i && c[*m as int] == PcModel::PositionalQuotation(*m));
                        assert(*m != 0);
                        PositionalConstraint::PositionalQuotation(*m - 1)
                    },
                    _ => p.duplicate(),
                }
            } else {
                match p {
                    PositionalConstraint::PositionalQuotation(m) => {
                        if *m == 0 {
                            assert(tail[i - 1] == first_variable(v));
                            match value.quotation() {
                                Some(q) => PositionalConstraint::ExactQuotation(q.clone()),
                                None => PositionalConstraint::PositionalQuotation(k),
                            }
                        } else {
                            PositionalConstraint::PositionalQuotation(*m - 1)
                        }
                    },
                    PositionalConstraint::PositionalByte(m) => {
                        assert(*m <= i && c[*m as int] == PcModel::PositionalByte(*m));
                        assert(*m != 0);
                        PositionalConstraint::PositionalByte(*m - 1)
                    },
                    _ => p.duplicate(),
                }
            };
            assert(np@ == reduce_element(tail[i - 1], v, kk));
            out.push(np);
            i += 1;
        }
        let r = Constraint(out);
        assert(r@ =~= reduce_model(c, v));
        r
    }
}

} // verus!
