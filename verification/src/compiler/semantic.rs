//! Semantic analysis of a program.
//!
//! - The same name and stack pattern can not be defined twice in a module: all the
//!   definitions of such a name are reported and removed.
//! - Every function used must be defined in scope: in the module itself or in a
//!   module it imports.
//! - Calls are replaced with their fully qualified names.
use vstd::prelude::*;

use crate::compiler::ast::Definition;
use crate::compiler::ast::DefinitionGroup;
use crate::compiler::ast::Expression;
use crate::compiler::ast::ModuleAst;
use crate::compiler::ast::StackArg;
use crate::compiler::ast::StackArgs;
use crate::compiler::ast::find_group;
use crate::compiler::ast::group_defs;
use crate::compiler::ast::lookup_defs;
use crate::compiler::ast::lemma_quotation_decreases;
use crate::compiler::ast::ExprModel;
use crate::compiler::ast::DefModel;
use crate::compiler::ast::def_shape_ok;
use crate::compiler::ast::groups_shape_ok;
use crate::compiler::ast::exprs_view;
use crate::compiler::ast::defs_view;
use crate::compiler::ast::groups_view;
use crate::compiler::ast::imports_view;
use crate::compiler::ast::stack_view;
use crate::compiler::ast::lemma_exprs_view_len;
use crate::compiler::ast::lemma_exprs_view_index;
use crate::compiler::ast::lemma_exprs_view_push;
use crate::span::SpanModel;
use vstd::string::StrSliceExecFns;
use crate::span::Span;
use vstd::string::StringExecFns;

verus! {

/// An error found by the semantic analysis.
#[derive(Debug, Clone, PartialEq, Eq)]
pub enum SemanticError {
    /// A definition of `name` with the same stack pattern as a later one, in `module`.
    DuplicateDefinition { name: String, pattern: Option<Vec<StackArg>>, module: String, span: Span },
    /// The last definition of `name` with a duplicated pattern.
    OriginalDefinition { name: String, pattern: Option<Vec<StackArg>>, span: Span },
    /// A function whose name starts with `_` used from another module.
    PrivateFunction { name: String, module: String, span: Span },
    /// A qualified call of a function that its module does not define.
    NotDefinedInModule { name: String, module: String, span: Span },
    /// A qualified call into a module that is not in scope.
    ModuleNotFound { module: String, span: Span },
    /// An unqualified call of a function that no module in scope defines.
    NotDefined { name: String, span: Span },
}

/// Two stack patterns are the same: both absent, or with equal entries.
pub open spec fn same_pattern(a: Option<StackArgs>, b: Option<StackArgs>) -> bool {
    match (a, b) {
        (None, None) => true,
        (Some(x), Some(y)) => x.args@ == y.args@,
        _ => false,
    }
}

fn patterns_equal(a: &Option<StackArgs>, b: &Option<StackArgs>) -> (r: bool)
    ensures
        r == same_pattern(*a, *b),
{
    if a.is_none() || b.is_none() {
        return a.is_none() && b.is_none();
    }
    let x = a.as_ref().unwrap();
    let y = b.as_ref().unwrap();
    assert(same_pattern(*a, *b) == (x.args@ == y.args@));
    if x.args.len() != y.args.len() {
        return false;
    }
    let mut k: usize = 0;
    while k < x.args.len()
        invariant
            k <= x.args@.len(),
            x.args@.len() == y.args@.len(),
            same_pattern(*a, *b) == (x.args@ == y.args@),
            forall|j: int| 0 <= j < k ==> x.args@[j] == y.args@[j],
        decreases x.args@.len() - k,
    {
        if !(x.args[k] == y.args[k]) {
            assert(x.args@[k as int] != y.args@[k as int]);
            return false;
        }
        k = k + 1;
    }
    assert(x.args@ =~= y.args@);
    true
}

fn copy_pattern(p: &Option<StackArgs>) -> (r: Option<Vec<StackArg>>)
    ensures
        match p {
            Some(s) => r matches Some(v) && v@ == s.args@,
            None => r is None,
        },
{
    match p {
        Some(s) => Some(s.args.clone()),
        None => None,
    }
}

/// Two definitions of the list have the same pattern.
pub open spec fn has_duplicates(defs: Seq<Definition>) -> bool {
    exists|j: int, l: int| 0 <= j < l < defs.len() && same_pattern(#[trigger] defs[l].stack, #[trigger] defs[j].stack)
}

fn any_duplicates(defs: &Vec<Definition>) -> (r: bool)
    ensures
        r == has_duplicates(defs@),
{
    let n = defs.len();
    let mut l: usize = 0;
    while l < n
        invariant
            l <= n,
            n == defs@.len(),
            forall|a: int, b: int| 0 <= a < b < l ==> !same_pattern(#[trigger] defs@[b].stack, #[trigger] defs@[a].stack),
        decreases n - l,
    {
        let mut j: usize = 0;
        while j < l
            invariant
                j <= l < n,
                n == defs@.len(),
                forall|a: int| 0 <= a < j ==> !same_pattern(defs@[l as int].stack, #[trigger] defs@[a].stack),
            decreases l - j,
        {
            if patterns_equal(&defs[l].stack, &defs[j].stack) {
                assert(same_pattern(defs@[l as int].stack, defs@[j as int].stack));
                return true;
            }
            j = j + 1;
        }
        l = l + 1;
    }
    false
}

/// The entries of a stack pattern, if there is one.
pub open spec fn pattern_entries(stack: Option<StackArgs>) -> Option<Seq<StackArg>> {
    match stack {
        Some(s) => Some(s.args@),
        None => None,
    }
}

/// The entries of a copied pattern, if there is one.
pub open spec fn copied_entries(p: Option<Vec<StackArg>>) -> Option<Seq<StackArg>> {
    match p {
        Some(v) => Some(v@),
        None => None,
    }
}

/// A definition after the `i`-th has its pattern.
pub open spec fn has_later(defs: Seq<Definition>, i: int) -> bool {
    exists|l: int| i < l < defs.len() && same_pattern(#[trigger] defs[l].stack, defs[i].stack)
}

/// The definitions before the `j`-th with the pattern of the `i`-th, in order,
/// each as `(true, index)`.
pub open spec fn earlier_same(defs: Seq<Definition>, i: int, j: int) -> Seq<(bool, int)>
    decreases j,
{
    if j <= 0 {
        Seq::empty()
    } else if same_pattern(defs[j - 1].stack, defs[i].stack) {
        earlier_same(defs, i, j - 1).push((true, j - 1))
    } else {
        earlier_same(defs, i, j - 1)
    }
}

/// What is reported for the `i`-th definition: when it is the last of its
/// pattern and earlier ones share it, each earlier one as a duplicate
/// `(true, index)`, then itself as the original `(false, i)`.
pub open spec fn report_block(defs: Seq<Definition>, i: int) -> Seq<(bool, int)> {
    let dups = earlier_same(defs, i, i);
    if !has_later(defs, i) && dups.len() > 0 {
        dups.push((false, i))
    } else {
        Seq::empty()
    }
}

/// What is reported for the definitions from the last one down to the `i`-th.
pub open spec fn reports_from(defs: Seq<Definition>, i: int) -> Seq<(bool, int)>
    decreases defs.len() - i,
{
    if i < 0 || i >= defs.len() {
        Seq::empty()
    } else {
        reports_from(defs, i + 1) + report_block(defs, i)
    }
}

/// The error `e` is the report `r` for the group `group` of `module`: a
/// duplicate or an original definition, with its name, pattern and span.
pub open spec fn error_is(e: SemanticError, group: DefinitionGroup, module: String, r: (bool, int)) -> bool {
    let d = group.defs@[r.1];
    if r.0 {
        (e matches SemanticError::DuplicateDefinition { name, pattern, module: m, span } && name == group.name && m
            == module && span == d.span && copied_entries(pattern) == pattern_entries(d.stack))
    } else {
        (e matches SemanticError::OriginalDefinition { name, pattern, span } && name == group.name && span == d.span
            && copied_entries(pattern) == pattern_entries(d.stack))
    }
}

/// From position `start` on, the errors are the reports `rs`, in order.
pub open spec fn reported(
    errors: Seq<SemanticError>,
    start: int,
    group: DefinitionGroup,
    module: String,
    rs: Seq<(bool, int)>,
) -> bool {
    &&& errors.len() == start + rs.len()
    &&& forall|k: int| start <= k < errors.len() ==> #[trigger] error_is(errors[k], group, module, rs[k - start])
}

proof fn lemma_reported_push(
    errors: Seq<SemanticError>,
    start: int,
    group: DefinitionGroup,
    module: String,
    rs: Seq<(bool, int)>,
    e: SemanticError,
    r: (bool, int),
)
    requires
        0 <= start,
        reported(errors, start, group, module, rs),
        error_is(e, group, module, r),
    ensures
        reported(errors.push(e), start, group, module, rs.push(r)),
{
    let es = errors.push(e);
    assert forall|k: int| start <= k < es.len() implies #[trigger] error_is(es[k], group, module, rs.push(r)[k - start]) by {
        if k < errors.len() {
            assert(es[k] == errors[k]);
            assert(rs.push(r)[k - start] == rs[k - start]);
        }
    }
}

/// Reports the duplicated patterns of one group of `module`: for each pattern
/// defined more than once, from the last definitions back, every earlier
/// definition with that pattern and then the last one.
fn report_duplicates(group: &DefinitionGroup, module: &String, errors: &mut Vec<SemanticError>)
    ensures
        final(errors)@.len() >= old(errors)@.len(),
        final(errors)@.subrange(0, old(errors)@.len() as int) == old(errors)@,
        reported(final(errors)@, old(errors)@.len() as int, *group, *module, reports_from(group.defs@, 0)),
{
    let defs = &group.defs;
    let n = defs.len();
    let ghost start = errors@.len() as int;
    let mut i = n;
    proof {
        assert(errors@.subrange(0, start) =~= old(errors)@);
    }
    while i > 0
        invariant
            i <= n,
            n == defs@.len(),
            *defs == group.defs,
            start == old(errors)@.len(),
            errors@.len() >= start,
            errors@.subrange(0, start) == old(errors)@,
            reported(errors@, start, *group, *module, reports_from(defs@, i as int)),
        decreases i,
    {
        i = i - 1;
        let ghost before = reports_from(defs@, i + 1);
        assert(reports_from(defs@, i as int) == before + report_block(defs@, i as int));
        // `defs[i]` is an original when no later definition has its pattern.
        let mut later = false;
        let mut l = i + 1;
        while l < n
            invariant
                i < l <= n,
                n == defs@.len(),
                later == exists|x: int| i < x < l && same_pattern(#[trigger] defs@[x].stack, defs@[i as int].stack),
            decreases n - l,
        {
            if patterns_equal(&defs[l].stack, &defs[i].stack) {
                later = true;
            }
            l = l + 1;
        }
        assert(later == has_later(defs@, i as int));
        if !later {
            let mut any = false;
            let mut j: usize = 0;
            proof {
                assert(before + earlier_same(defs@, i as int, 0) =~= before);
            }
            while j < i
                invariant
                    j <= i,
                    i < n,
                    n == defs@.len(),
                    *defs == group.defs,
                    start == old(errors)@.len(),
                    errors@.len() >= start,
                    errors@.subrange(0, start) == old(errors)@,
                    before == reports_from(defs@, i + 1),
                    reported(errors@, start, *group, *module, before + earlier_same(defs@, i as int, j as int)),
                    any == (earlier_same(defs@, i as int, j as int).len() > 0),
                decreases i - j,
            {
                if patterns_equal(&defs[j].stack, &defs[i].stack) {
                    let e = SemanticError::DuplicateDefinition {
                        name: group.name.clone(),
                        pattern: copy_pattern(&defs[j].stack),
                        module: module.clone(),
                        span: defs[j].span,
                    };
                    proof {
                        lemma_reported_push(
                            errors@,
                            start,
                            *group,
                            *module,
                            before + earlier_same(defs@, i as int, j as int),
                            e,
                            (true, j as int),
                        );
                        assert((before + earlier_same(defs@, i as int, j as int)).push((true, j as int)) =~= before
                            + earlier_same(defs@, i as int, j + 1));
                    }
                    errors.push(e);
                    any = true;
                }
                j = j + 1;
            }
            if any {
                let e = SemanticError::OriginalDefinition {
                    name: group.name.clone(),
                    pattern: copy_pattern(&defs[i].stack),
                    span: defs[i].span,
                };
                proof {
                    lemma_reported_push(
                        errors@,
                        start,
                        *group,
                        *module,
                        before + earlier_same(defs@, i as int, i as int),
                        e,
                        (false, i as int),
                    );
                    assert((before + earlier_same(defs@, i as int, i as int)).push((false, i as int)) =~= before
                        + report_block(defs@, i as int));
                }
                errors.push(e);
            } else {
                assert(before + earlier_same(defs@, i as int, i as int) =~= before + report_block(defs@, i as int));
            }
        } else {
            assert(before =~= before + report_block(defs@, i as int));
        }
    }
}

/// The modules of a program as calls see them: each name with its groups of
/// definitions.
pub open spec fn module_table(modules: Seq<ModuleAst>) -> Seq<(Seq<char>, Seq<DefinitionGroup>)> {
    modules.map_values(|m: ModuleAst| (m.name@, m.definitions@))
}

/// The groups define `name`.
pub open spec fn defines(groups: Seq<DefinitionGroup>, name: Seq<char>) -> bool {
    group_defs(groups, name) is Some
}

/// The first scope, from the `k`-th on, whose module is named `module`.
pub open spec fn scope_named(
    tbl: Seq<(Seq<char>, Seq<DefinitionGroup>)>,
    scopes: Seq<usize>,
    module: Seq<char>,
    k: int,
) -> Option<int>
    decreases scopes.len() - k,
{
    if k < 0 || k >= scopes.len() {
        None
    } else if tbl[scopes[k] as int].0 == module {
        Some(k)
    } else {
        scope_named(tbl, scopes, module, k + 1)
    }
}

/// The last scope, before the `k`-th, whose module defines `name`.
pub open spec fn scope_defining(
    tbl: Seq<(Seq<char>, Seq<DefinitionGroup>)>,
    scopes: Seq<usize>,
    name: Seq<char>,
    k: int,
) -> Option<int>
    decreases k,
{
    if k <= 0 || k > scopes.len() {
        None
    } else if defines(tbl[scopes[k - 1] as int].1, name) {
        Some(k - 1)
    } else {
        scope_defining(tbl, scopes, name, k - 1)
    }
}

/// The module a call `module.name` goes to, from the scopes (indexes into the
/// table; the last one is the current module); `None` when it is not in scope. A
/// qualified call needs its module in scope, defining `name`, and a name that
/// starts with `_` only from its own module. An unqualified call goes to the last
/// scope that defines it.
pub open spec fn resolve_call(
    tbl: Seq<(Seq<char>, Seq<DefinitionGroup>)>,
    scopes: Seq<usize>,
    module: Seq<char>,
    name: Seq<char>,
) -> Option<Seq<char>> {
    if module.len() > 0 {
        match scope_named(tbl, scopes, module, 0) {
            None => None,
            Some(i) => if !defines(tbl[scopes[i] as int].1, name) {
                None
            } else if name.len() > 0 && name[0] == '_' && module != tbl[scopes.last() as int].0 {
                None
            } else {
                Some(module)
            },
        }
    } else {
        match scope_defining(tbl, scopes, name, scopes.len() as int) {
            None => None,
            Some(i) => Some(tbl[scopes[i] as int].0),
        }
    }
}

/// The error for a call `module.name` that is not in scope.
pub open spec fn call_error(
    tbl: Seq<(Seq<char>, Seq<DefinitionGroup>)>,
    scopes: Seq<usize>,
    module: String,
    name: String,
    span: Span,
) -> SemanticError {
    if module@.len() > 0 {
        match scope_named(tbl, scopes, module@, 0) {
            None => SemanticError::ModuleNotFound { module, span },
            Some(i) => if !defines(tbl[scopes[i] as int].1, name@) {
                SemanticError::NotDefinedInModule { name, module, span }
            } else {
                SemanticError::PrivateFunction { name, module, span }
            },
        }
    } else {
        SemanticError::NotDefined { name, span }
    }
}

fn find_scope_named(modules: &Vec<ModuleAst>, scopes: &Vec<usize>, module_name: &String) -> (r: Option<usize>)
    requires
        forall|i: int| 0 <= i < scopes@.len() ==> #[trigger] scopes@[i] < modules@.len(),
    ensures
        scope_named(module_table(modules@), scopes@, module_name@, 0) == (match r {
            Some(i) => Some(i as int),
            None => None::<int>,
        }),
        r matches Some(i) ==> i < scopes@.len(),
{
    let ghost tbl = module_table(modules@);
    let mut k: usize = 0;
    while k < scopes.len()
        invariant
            k <= scopes@.len(),
            tbl == module_table(modules@),
            forall|i: int| 0 <= i < scopes@.len() ==> #[trigger] scopes@[i] < modules@.len(),
            scope_named(tbl, scopes@, module_name@, 0) == scope_named(tbl, scopes@, module_name@, k as int),
        decreases scopes@.len() - k,
    {
        assert(tbl[scopes@[k as int] as int].0 == modules@[scopes@[k as int] as int].name@);
        if modules[scopes[k]].name == *module_name {
            return Some(k);
        }
        k = k + 1;
    }
    None
}

fn find_scope_defining(modules: &Vec<ModuleAst>, scopes: &Vec<usize>, name: &String) -> (r: Option<usize>)
    requires
        forall|i: int| 0 <= i < scopes@.len() ==> #[trigger] scopes@[i] < modules@.len(),
    ensures
        scope_defining(module_table(modules@), scopes@, name@, scopes@.len() as int) == (match r {
            Some(i) => Some(i as int),
            None => None::<int>,
        }),
        r matches Some(i) ==> i < scopes@.len(),
{
    let ghost tbl = module_table(modules@);
    let mut k = scopes.len();
    while k > 0
        invariant
            k <= scopes@.len(),
            tbl == module_table(modules@),
            forall|i: int| 0 <= i < scopes@.len() ==> #[trigger] scopes@[i] < modules@.len(),
            scope_defining(tbl, scopes@, name@, scopes@.len() as int) == scope_defining(tbl, scopes@, name@, k as int),
        decreases k,
    {
        assert(tbl[scopes@[k - 1] as int].1 == modules@[scopes@[k - 1] as int].definitions@);
        if find_group(&modules[scopes[k - 1]].definitions, name).is_some() {
            return Some(k - 1);
        }
        k = k - 1;
    }
    None
}

/// Finds the module that defines a call. A qualified call `module.name` needs
/// `module` in scope, defining `name`, and `name` must not start with `_` unless
/// `module` is the current module (the last scope). An unqualified call is
/// qualified with the last scope that defines it.
pub fn qualify_string(
    modules: &Vec<ModuleAst>,
    scopes: &Vec<usize>,
    module_name: &String,
    name: &String,
    span: Span,
) -> (r: Result<(String, String), SemanticError>)
    requires
        scopes@.len() >= 1,
        forall|i: int| 0 <= i < scopes@.len() ==> #[trigger] scopes@[i] < modules@.len(),
    ensures
        r is Ok <==> resolve_call(module_table(modules@), scopes@, module_name@, name@) is Some,
        r matches Ok((m, n)) ==> Some(m@) == resolve_call(module_table(modules@), scopes@, module_name@, name@)
            && n@ == name@,
        r matches Err(e) ==> e == call_error(module_table(modules@), scopes@, *module_name, *name, span),
{
    let ghost tbl = module_table(modules@);
    let this = scopes[scopes.len() - 1];
    assert(tbl[this as int].0 == modules@[this as int].name@);
    if module_name.as_str().unicode_len() > 0 {
        match find_scope_named(modules, scopes, module_name) {
            None => Err(SemanticError::ModuleNotFound { module: module_name.clone(), span }),
            Some(i) => {
                let m = &modules[scopes[i]];
                assert(tbl[scopes@[i as int] as int].1 == m.definitions@);
                if find_group(&m.definitions, name).is_none() {
                    return Err(SemanticError::NotDefinedInModule { name: name.clone(), module: module_name.clone(), span });
                }
                let private = name.as_str().unicode_len() > 0 && name.as_str().get_char(0) == '_';
                if private && modules[this].name != *module_name {
                    return Err(SemanticError::PrivateFunction { name: name.clone(), module: module_name.clone(), span });
                }
                Ok((module_name.clone(), name.clone()))
            },
        }
    } else {
        match find_scope_defining(modules, scopes, name) {
            None => Err(SemanticError::NotDefined { name: name.clone(), span }),
            Some(i) => {
                assert(tbl[scopes@[i as int] as int].0 == modules@[scopes@[i as int] as int].name@);
                Ok((modules[scopes[i]].name.clone(), name.clone()))
            },
        }
    }
}

/// `name` is one of the letters of the stack pattern.
pub open spec fn is_pattern_letter(stack: Option<(Seq<StackArg>, SpanModel)>, name: Seq<char>) -> bool {
    match stack {
        Some((args, _)) => exists|i: int|
            0 <= i < args.len() && match #[trigger] args[i] {
                StackArg::Position(c, _) => name == seq![c],
                StackArg::Qoutation(c, _) => name == seq![c],
                _ => false,
            },
        None => false,
    }
}

fn pattern_letter(stack: &Option<StackArgs>, name: &String) -> (r: bool)
    ensures
        r == is_pattern_letter(stack_view(*stack), name@),
{
    match stack {
        None => false,
        Some(p) => {
            if name.as_str().unicode_len() != 1 {
                proof {
                    assert forall|i: int| 0 <= i < p.args@.len() implies !(match #[trigger] p.args@[i] {
                        StackArg::Position(c, _) => name@ == seq![c],
                        StackArg::Qoutation(c, _) => name@ == seq![c],
                        _ => false,
                    }) by {}
                }
                return false;
            }
            let n = name.as_str().get_char(0);
            assert(name@ =~= seq![n]);
            let mut k: usize = 0;
            while k < p.args.len()
                invariant
                    k <= p.args@.len(),
                    name@ == seq![n],
                    *stack == Some(*p),
                    forall|i: int| 0 <= i < k ==> !(match #[trigger] p.args@[i] {
                        StackArg::Position(c, _) => name@ == seq![c],
                        StackArg::Qoutation(c, _) => name@ == seq![c],
                        _ => false,
                    }),
                decreases p.args@.len() - k,
            {
                match p.args[k] {
                    StackArg::Position(c, _) | StackArg::Qoutation(c, _) => {
                        if c == n {
                            assert(match p.args@[k as int] {
                                StackArg::Position(c, _) => name@ == seq![c],
                                StackArg::Qoutation(c, _) => name@ == seq![c],
                                _ => false,
                            });
                            return true;
                        }
                        assert(seq![c] != seq![n]) by {
                            assert(seq![c][0] != seq![n][0]);
                        }
                    },
                    _ => {},
                }
                k = k + 1;
            }
            false
        },
    }
}

/// The expression with each call replaced by its fully qualified name; `None`
/// when a call is not in scope. A call of a letter of the stack pattern stays as
/// it is.
pub open spec fn qualified(
    tbl: Seq<(Seq<char>, Seq<DefinitionGroup>)>,
    scopes: Seq<usize>,
    stack: Option<(Seq<StackArg>, SpanModel)>,
    e: ExprModel,
) -> Option<ExprModel>
    decreases e,
{
    match e {
        ExprModel::Quotation(q, span) => match qualified_list(tbl, scopes, stack, q) {
            Some(q2) => Some(ExprModel::Quotation(q2, span)),
            None => None,
        },
        ExprModel::Function(m, n, span) => if m.len() == 0 && is_pattern_letter(stack, n) {
            Some(e)
        } else {
            match resolve_call(tbl, scopes, m, n) {
                Some(qm) => Some(ExprModel::Function(qm, n, span)),
                None => None,
            }
        },
        _ => Some(e),
    }
}

/// Each expression of the list qualified; `None` when one is not.
pub open spec fn qualified_list(
    tbl: Seq<(Seq<char>, Seq<DefinitionGroup>)>,
    scopes: Seq<usize>,
    stack: Option<(Seq<StackArg>, SpanModel)>,
    es: Seq<ExprModel>,
) -> Option<Seq<ExprModel>>
    decreases es,
{
    if es.len() == 0 {
        Some(Seq::empty())
    } else {
        match (qualified_list(tbl, scopes, stack, es.drop_last()), qualified(tbl, scopes, stack, es.last())) {
            (Some(a), Some(b)) => Some(a.push(b)),
            _ => None,
        }
    }
}

/// Replaces the calls of an expression with their fully qualified names. A call
/// of a letter of the definition's stack pattern is left as it is.
pub fn qualify_expression(
    modules: &Vec<ModuleAst>,
    scopes: &Vec<usize>,
    stack: &Option<StackArgs>,
    e: &Expression,
) -> (r: Result<Expression, Vec<SemanticError>>)
    requires
        scopes@.len() >= 1,
        forall|i: int| 0 <= i < scopes@.len() ==> #[trigger] scopes@[i] < modules@.len(),
    ensures
        r is Ok <==> qualified(module_table(modules@), scopes@, stack_view(*stack), e@) is Some,
        r matches Ok(x) ==> Some(x@) == qualified(module_table(modules@), scopes@, stack_view(*stack), e@),
        r matches Err(errors) ==> errors@.len() > 0,
        r matches Err(errors) ==> errs_view(errors@) == expr_errs(module_table(modules@), scopes@, stack_view(*stack), e@),
        r is Ok ==> expr_errs(module_table(modules@), scopes@, stack_view(*stack), e@) == Seq::<ErrModel>::empty(),
    decreases e,
{
    let ghost tbl = module_table(modules@);
    let ghost st = stack_view(*stack);
    match e {
        Expression::Quotation(q, p) => {
            let mut errors: Vec<SemanticError> = Vec::new();
            let mut quotation: Vec<Expression> = Vec::new();
            proof {
                lemma_quotation_decreases(*e);
                lemma_exprs_view_len(q@);
                assert(exprs_view(q@).take(0) =~= Seq::<ExprModel>::empty());
                assert(exprs_view(quotation@) =~= Seq::<ExprModel>::empty());
            }
            let mut k: usize = 0;
            while k < q.len()
                invariant
                    k <= q@.len(),
                    scopes@.len() >= 1,
                    tbl == module_table(modules@),
                    st == stack_view(*stack),
                    exprs_view(q@).len() == q@.len(),
                    forall|i: int| 0 <= i < scopes@.len() ==> #[trigger] scopes@[i] < modules@.len(),
                    forall|j: int| 0 <= j < q@.len() ==> decreases_to!(*e => #[trigger] q@[j]),
                    errors@.len() == 0 <==> qualified_list(tbl, scopes@, st, exprs_view(q@).take(k as int)) is Some,
                    errors@.len() == 0 ==> qualified_list(tbl, scopes@, st, exprs_view(q@).take(k as int)) == Some(
                        exprs_view(quotation@),
                    ),
                    errs_view(errors@) == exprs_errs(tbl, scopes@, st, exprs_view(q@).take(k as int)),
                decreases q@.len() - k,
            {
                proof {
                    let t = exprs_view(q@).take(k + 1);
                    assert(t.drop_last() =~= exprs_view(q@).take(k as int));
                    lemma_exprs_view_index(q@, k as int);
                    assert(t.last() == q@[k as int]@);
                }
                match qualify_expression(modules, scopes, stack, &q[k]) {
                    Ok(x) => {
                        proof {
                            lemma_exprs_view_push(quotation@, x);
                        }
                        quotation.push(x);
                    },
                    Err(mut es) => {
                        proof {
                            lemma_errs_view_add(errors@, es@);
                        }
                        errors.append(&mut es);
                    },
                }
                k = k + 1;
            }
            proof {
                assert(exprs_view(q@).take(k as int) =~= exprs_view(q@));
                assert(errs_view(errors@).len() == errors@.len());
            }
            if errors.len() == 0 {
                Ok(Expression::Quotation(quotation, *p))
            } else {
                Err(errors)
            }
        },
        Expression::Function(module, name, span) => {
            if module.as_str().unicode_len() == 0 && pattern_letter(stack, name) {
                return Ok(e.duplicate());
            }
            match qualify_string(modules, scopes, module, name, *span) {
                Ok((m, n)) => Ok(Expression::Function(m, n, *span)),
                Err(err) => {
                    let mut errors = Vec::new();
                    errors.push(err);
                    proof {
                        assert(errs_view(errors@) =~= seq![err@]);
                    }
                    Err(errors)
                },
            }
        },
        _ => Ok(e.duplicate()),
    }
}

/// A copy of a stack pattern.
fn copy_stack(stack: &Option<StackArgs>) -> (r: Option<StackArgs>)
    ensures
        stack_view(r) == stack_view(*stack),
        same_pattern(r, *stack),
{
    match stack {
        Some(s) => {
            let args = s.args.clone();
            assert(args@ =~= s.args@);
            Some(StackArgs { args, span: s.span })
        },
        None => None,
    }
}

/// The first module, from the `k`-th on, named `name`.
pub open spec fn module_named(tbl: Seq<(Seq<char>, Seq<DefinitionGroup>)>, name: Seq<char>, k: int) -> Option<int>
    decreases tbl.len() - k,
{
    if k < 0 || k >= tbl.len() {
        None
    } else if tbl[k].0 == name {
        Some(k)
    } else {
        module_named(tbl, name, k + 1)
    }
}

/// The index of the first module named `name`.
fn module_index(modules: &Vec<ModuleAst>, name: &String) -> (r: Option<usize>)
    ensures
        module_named(module_table(modules@), name@, 0) == (match r {
            Some(i) => Some(i as int),
            None => None::<int>,
        }),
        r matches Some(i) ==> i < modules@.len(),
{
    let ghost tbl = module_table(modules@);
    let mut k: usize = 0;
    while k < modules.len()
        invariant
            k <= modules@.len(),
            tbl == module_table(modules@),
            module_named(tbl, name@, 0) == module_named(tbl, name@, k as int),
        decreases modules@.len() - k,
    {
        assert(tbl[k as int].0 == modules@[k as int].name@);
        if modules[k].name == *name {
            return Some(k);
        }
        k = k + 1;
    }
    None
}

/// The modules that imports refer to, in order, leaving out those not found.
pub open spec fn import_scopes(tbl: Seq<(Seq<char>, Seq<DefinitionGroup>)>, imports: Seq<(Seq<char>, SpanModel)>) -> Seq<
    usize,
>
    decreases imports.len(),
{
    if imports.len() == 0 {
        Seq::empty()
    } else {
        let before = import_scopes(tbl, imports.drop_last());
        match module_named(tbl, imports.last().0, 0) {
            Some(j) => before.push(j as usize),
            None => before,
        }
    }
}

/// Every import names a module of the table.
pub open spec fn imports_found(tbl: Seq<(Seq<char>, Seq<DefinitionGroup>)>, imports: Seq<(Seq<char>, SpanModel)>) -> bool {
    forall|k: int| 0 <= k < imports.len() ==> (#[trigger] module_named(tbl, imports[k].0, 0)) is Some
}

/// The definition with its calls qualified; `None` when a call is not in scope.
pub open spec fn qualified_def(tbl: Seq<(Seq<char>, Seq<DefinitionGroup>)>, scopes: Seq<usize>, d: DefModel) -> Option<
    DefModel,
> {
    match qualified_list(tbl, scopes, d.stack, d.body) {
        Some(body) => Some(
            DefModel {
                typ: d.typ,
                name: d.name,
                stack: d.stack,
                body,
                span: d.span,
                unique_id: d.unique_id,
            },
        ),
        None => None,
    }
}

/// The definitions with their calls qualified; `None` when a call is not in scope.
pub open spec fn qualified_defs(tbl: Seq<(Seq<char>, Seq<DefinitionGroup>)>, scopes: Seq<usize>, ds: Seq<DefModel>) -> Option<
    Seq<DefModel>,
>
    decreases ds.len(),
{
    if ds.len() == 0 {
        Some(Seq::empty())
    } else {
        match (qualified_defs(tbl, scopes, ds.drop_last()), qualified_def(tbl, scopes, ds.last())) {
            (Some(a), Some(b)) => Some(a.push(b)),
            _ => None,
        }
    }
}

/// The groups with their calls qualified; `None` when a call is not in scope.
pub open spec fn qualified_groups(
    tbl: Seq<(Seq<char>, Seq<DefinitionGroup>)>,
    scopes: Seq<usize>,
    gs: Seq<(Seq<char>, Seq<DefModel>)>,
) -> Option<Seq<(Seq<char>, Seq<DefModel>)>>
    decreases gs.len(),
{
    if gs.len() == 0 {
        Some(Seq::empty())
    } else {
        match (qualified_groups(tbl, scopes, gs.drop_last()), qualified_defs(tbl, scopes, gs.last().1)) {
            (Some(a), Some(b)) => Some(a.push((gs.last().0, b))),
            _ => None,
        }
    }
}

/// The groups of the `i`-th module of the table, with the imports `imports`,
/// with every call qualified: its scopes are the modules it imports, then
/// itself. `None` when an import or a call is not found.
pub open spec fn qualified_module(
    tbl: Seq<(Seq<char>, Seq<DefinitionGroup>)>,
    imports: Seq<(Seq<char>, SpanModel)>,
    i: int,
    gs: Seq<(Seq<char>, Seq<DefModel>)>,
) -> Option<Seq<(Seq<char>, Seq<DefModel>)>> {
    if imports_found(tbl, imports) {
        qualified_groups(tbl, import_scopes(tbl, imports).push(i as usize), gs)
    } else {
        None
    }
}

/// The model of a semantic error: texts as character sequences, a copied pattern
/// as its entries, spans as models.
pub enum ErrModel {
    Duplicate { name: Seq<char>, pattern: Option<Seq<StackArg>>, module: Seq<char>, span: SpanModel },
    Original { name: Seq<char>, pattern: Option<Seq<StackArg>>, span: SpanModel },
    Private { name: Seq<char>, module: Seq<char>, span: SpanModel },
    NotInModule { name: Seq<char>, module: Seq<char>, span: SpanModel },
    NoModule { module: Seq<char>, span: SpanModel },
    Undefined { name: Seq<char>, span: SpanModel },
}

impl View for SemanticError {
    type V = ErrModel;

    open spec fn view(&self) -> ErrModel {
        match self {
            SemanticError::DuplicateDefinition { name, pattern, module, span } => ErrModel::Duplicate {
                name: name@,
                pattern: copied_entries(*pattern),
                module: module@,
                span: span@,
            },
            SemanticError::OriginalDefinition { name, pattern, span } => ErrModel::Original {
                name: name@,
                pattern: copied_entries(*pattern),
                span: span@,
            },
            SemanticError::PrivateFunction { name, module, span } => ErrModel::Private {
                name: name@,
                module: module@,
                span: span@,
            },
            SemanticError::NotDefinedInModule { name, module, span } => ErrModel::NotInModule {
                name: name@,
                module: module@,
                span: span@,
            },
            SemanticError::ModuleNotFound { module, span } => ErrModel::NoModule { module: module@, span: span@ },
            SemanticError::NotDefined { name, span } => ErrModel::Undefined { name: name@, span: span@ },
        }
    }
}

/// The models of a list of errors.
pub open spec fn errs_view(es: Seq<SemanticError>) -> Seq<ErrModel> {
    es.map_values(|e: SemanticError| e@)
}

/// The model of the error for a call `module.name` that is not in scope.
pub open spec fn call_err(
    tbl: Seq<(Seq<char>, Seq<DefinitionGroup>)>,
    scopes: Seq<usize>,
    module: Seq<char>,
    name: Seq<char>,
    span: SpanModel,
) -> ErrModel {
    if module.len() > 0 {
        match scope_named(tbl, scopes, module, 0) {
            None => ErrModel::NoModule { module, span },
            Some(i) => if !defines(tbl[scopes[i] as int].1, name) {
                ErrModel::NotInModule { name, module, span }
            } else {
                ErrModel::Private { name, module, span }
            },
        }
    } else {
        ErrModel::Undefined { name, span }
    }
}

/// The errors of the calls of an expression that are not in scope, in order.
pub open spec fn expr_errs(
    tbl: Seq<(Seq<char>, Seq<DefinitionGroup>)>,
    scopes: Seq<usize>,
    stack: Option<(Seq<StackArg>, SpanModel)>,
    e: ExprModel,
) -> Seq<ErrModel>
    decreases e,
{
    match e {
        ExprModel::Quotation(q, _) => exprs_errs(tbl, scopes, stack, q),
        ExprModel::Function(m, n, span) => if m.len() == 0 && is_pattern_letter(stack, n) {
            Seq::empty()
        } else if resolve_call(tbl, scopes, m, n) is Some {
            Seq::empty()
        } else {
            seq![call_err(tbl, scopes, m, n, span)]
        },
        _ => Seq::empty(),
    }
}

/// The errors of a list of expressions, in order.
pub open spec fn exprs_errs(
    tbl: Seq<(Seq<char>, Seq<DefinitionGroup>)>,
    scopes: Seq<usize>,
    stack: Option<(Seq<StackArg>, SpanModel)>,
    es: Seq<ExprModel>,
) -> Seq<ErrModel>
    decreases es,
{
    if es.len() == 0 {
        Seq::empty()
    } else {
        exprs_errs(tbl, scopes, stack, es.drop_last()) + expr_errs(tbl, scopes, stack, es.last())
    }
}

/// The errors of a list of definitions, in order.
pub open spec fn defs_errs(tbl: Seq<(Seq<char>, Seq<DefinitionGroup>)>, scopes: Seq<usize>, ds: Seq<DefModel>) -> Seq<
    ErrModel,
>
    decreases ds.len(),
{
    if ds.len() == 0 {
        Seq::empty()
    } else {
        defs_errs(tbl, scopes, ds.drop_last()) + exprs_errs(tbl, scopes, ds.last().stack, ds.last().body)
    }
}

/// The errors of a list of groups, in order.
pub open spec fn groups_errs(
    tbl: Seq<(Seq<char>, Seq<DefinitionGroup>)>,
    scopes: Seq<usize>,
    gs: Seq<(Seq<char>, Seq<DefModel>)>,
) -> Seq<ErrModel>
    decreases gs.len(),
{
    if gs.len() == 0 {
        Seq::empty()
    } else {
        groups_errs(tbl, scopes, gs.drop_last()) + defs_errs(tbl, scopes, gs.last().1)
    }
}

/// The errors for the imports that name no module, in order.
pub open spec fn import_errs(tbl: Seq<(Seq<char>, Seq<DefinitionGroup>)>, imports: Seq<(Seq<char>, SpanModel)>) -> Seq<
    ErrModel,
>
    decreases imports.len(),
{
    if imports.len() == 0 {
        Seq::empty()
    } else {
        import_errs(tbl, imports.drop_last()) + if module_named(tbl, imports.last().0, 0) is Some {
            Seq::<ErrModel>::empty()
        } else {
            seq![ErrModel::NoModule { module: imports.last().0, span: imports.last().1 }]
        }
    }
}

/// The errors of the `i`-th module of the table: its imports not found, then the
/// calls of its groups not in scope.
pub open spec fn module_errs(
    tbl: Seq<(Seq<char>, Seq<DefinitionGroup>)>,
    imports: Seq<(Seq<char>, SpanModel)>,
    i: int,
    gs: Seq<(Seq<char>, Seq<DefModel>)>,
) -> Seq<ErrModel> {
    import_errs(tbl, imports) + groups_errs(tbl, import_scopes(tbl, imports).push(i as usize), gs)
}

/// The model of the report `r` for the group `group` of `module`.
pub open spec fn report_model(group: DefinitionGroup, module: Seq<char>, r: (bool, int)) -> ErrModel {
    let d = group.defs@[r.1];
    if r.0 {
        ErrModel::Duplicate { name: group.name@, pattern: pattern_entries(d.stack), module, span: d.span@ }
    } else {
        ErrModel::Original { name: group.name@, pattern: pattern_entries(d.stack), span: d.span@ }
    }
}

/// The duplicate reports of a group of `module`: its duplicated patterns, each
/// earlier definition and then the last one, from the last definitions back.
pub open spec fn group_dup_errs(group: DefinitionGroup, module: Seq<char>) -> Seq<ErrModel> {
    reports_from(group.defs@, 0).map_values(|r: (bool, int)| report_model(group, module, r))
}

/// The duplicate reports of the groups of `module`, in order.
pub open spec fn dup_errs(gs: Seq<DefinitionGroup>, module: Seq<char>) -> Seq<ErrModel>
    decreases gs.len(),
{
    if gs.len() == 0 {
        Seq::empty()
    } else {
        dup_errs(gs.drop_last(), module) + if has_duplicates(gs.last().defs@) {
            group_dup_errs(gs.last(), module)
        } else {
            Seq::<ErrModel>::empty()
        }
    }
}

/// The table of the modules once their duplicated groups are left out.
pub open spec fn clean_table(ms: Seq<ModuleAst>) -> Seq<(Seq<char>, Seq<DefinitionGroup>)> {
    ms.map_values(|m: ModuleAst| (m.name@, without_duplicate_groups(m.definitions@)))
}

/// The duplicate reports of the first `k` modules, in order.
pub open spec fn all_dup_errs(ms: Seq<ModuleAst>, k: int) -> Seq<ErrModel>
    decreases k,
{
    if k <= 0 {
        Seq::empty()
    } else {
        all_dup_errs(ms, k - 1) + dup_errs(ms[k - 1].definitions@, ms[k - 1].name@)
    }
}

/// The scope errors of the first `k` modules, once their duplicated groups are
/// left out, in order.
pub open spec fn all_scope_errs(ms: Seq<ModuleAst>, k: int) -> Seq<ErrModel>
    decreases k,
{
    if k <= 0 {
        Seq::empty()
    } else {
        all_scope_errs(ms, k - 1) + module_errs(
            clean_table(ms),
            imports_view(ms[k - 1].imports@),
            k - 1,
            groups_view(without_duplicate_groups(ms[k - 1].definitions@)),
        )
    }
}

/// Every error that the analysis of a program reports, in order: the duplicated
/// definitions of each module, then, module by module, the imports not found and
/// the calls not in scope.
pub open spec fn semantic_errors(ms: Seq<ModuleAst>) -> Seq<ErrModel> {
    all_dup_errs(ms, ms.len() as int) + all_scope_errs(ms, ms.len() as int)
}

proof fn lemma_errs_view_add(a: Seq<SemanticError>, b: Seq<SemanticError>)
    ensures
        errs_view(a + b) == errs_view(a) + errs_view(b),
{
    assert(errs_view(a + b) =~= errs_view(a) + errs_view(b));
}

proof fn lemma_errs_view_push(a: Seq<SemanticError>, e: SemanticError)
    ensures
        errs_view(a.push(e)) == errs_view(a).push(e@),
{
    assert(errs_view(a.push(e)) =~= errs_view(a).push(e@));
}

/// Reports written after `start` are, in order, the models of `rs`.
proof fn lemma_reported_view(
    errors: Seq<SemanticError>,
    before: Seq<SemanticError>,
    group: DefinitionGroup,
    module: String,
    rs: Seq<(bool, int)>,
)
    requires
        errors.len() >= before.len(),
        errors.subrange(0, before.len() as int) == before,
        reported(errors, before.len() as int, group, module, rs),
    ensures
        errs_view(errors) == errs_view(before) + rs.map_values(|r: (bool, int)| report_model(group, module@, r)),
{
    let n = before.len() as int;
    assert forall|k: int| n <= k < errors.len() implies errors[k]@ == report_model(group, module@, rs[k - n]) by {
        assert(error_is(errors[k], group, module, rs[k - n]));
    }
    assert forall|k: int| 0 <= k < n implies errors[k] == before[k] by {
        assert(errors.subrange(0, n)[k] == errors[k]);
    }
    assert(errs_view(errors) =~= errs_view(before) + rs.map_values(|r: (bool, int)| report_model(group, module@, r)));
}

/// A pattern that occurs before the `j`-th definition gives an earlier duplicate.
proof fn lemma_earlier_same_nonempty(defs: Seq<Definition>, i: int, j: int, x: int)
    requires
        0 <= x < j <= defs.len(),
        same_pattern(defs[x].stack, defs[i].stack),
    ensures
        earlier_same(defs, i, j).len() > 0,
    decreases j,
{
    if x < j - 1 && !same_pattern(defs[j - 1].stack, defs[i].stack) {
        lemma_earlier_same_nonempty(defs, i, j - 1, x);
    }
}

/// The reports from the `i`-th definition on hold the block of every later one.
proof fn lemma_reports_from_holds(defs: Seq<Definition>, i: int, m: int)
    requires
        0 <= i <= m < defs.len(),
    ensures
        reports_from(defs, i).len() >= report_block(defs, m).len(),
    decreases m - i,
{
    if i < m {
        lemma_reports_from_holds(defs, i + 1, m);
    }
}

/// A group with two definitions of one pattern has a report.
proof fn lemma_dups_reported(defs: Seq<Definition>, j: int, l: int)
    requires
        0 <= j < l < defs.len(),
        same_pattern(defs[l].stack, defs[j].stack),
    ensures
        reports_from(defs, 0).len() > 0,
    decreases defs.len() - l,
{
    if has_later(defs, l) {
        let l2 = choose|l2: int| l < l2 < defs.len() && same_pattern(#[trigger] defs[l2].stack, defs[l].stack);
        lemma_dups_reported(defs, j, l2);
    } else {
        lemma_earlier_same_nonempty(defs, l, l, j);
        lemma_reports_from_holds(defs, 0, l);
    }
}

/// A definition with its calls qualified; errors are added for those not in scope.
fn qualify_definition(
    modules: &Vec<ModuleAst>,
    scopes: &Vec<usize>,
    def: &Definition,
    errors: &mut Vec<SemanticError>,
) -> (r: Definition)
    requires
        scopes@.len() >= 1,
        forall|i: int| 0 <= i < scopes@.len() ==> #[trigger] scopes@[i] < modules@.len(),
    ensures
        final(errors)@.len() >= old(errors)@.len(),
        (final(errors)@.len() == old(errors)@.len()) <==> qualified_def(module_table(modules@), scopes@, def@) is Some,
        final(errors)@.len() == old(errors)@.len() ==> Some(r@) == qualified_def(module_table(modules@), scopes@, def@),
        errs_view(final(errors)@) == errs_view(old(errors)@) + exprs_errs(
            module_table(modules@),
            scopes@,
            stack_view(def.stack),
            exprs_view(def.body@),
        ),
{
    let ghost tbl = module_table(modules@);
    let ghost st = stack_view(def.stack);
    let ghost bv = exprs_view(def.body@);
    let ghost start = errors@.len();
    let mut body: Vec<Expression> = Vec::new();
    proof {
        lemma_exprs_view_len(def.body@);
        assert(bv.take(0) =~= Seq::<ExprModel>::empty());
        assert(errs_view(old(errors)@) + Seq::<ErrModel>::empty() =~= errs_view(old(errors)@));
        assert(exprs_view(body@) =~= Seq::<ExprModel>::empty());
    }
    let mut b: usize = 0;
    while b < def.body.len()
        invariant
            b <= def.body@.len(),
            scopes@.len() >= 1,
            forall|j: int| 0 <= j < scopes@.len() ==> #[trigger] scopes@[j] < modules@.len(),
            tbl == module_table(modules@),
            st == stack_view(def.stack),
            bv == exprs_view(def.body@),
            bv.len() == def.body@.len(),
            errors@.len() >= start,
            start == old(errors)@.len(),
            errors@.len() == start <==> qualified_list(tbl, scopes@, st, bv.take(b as int)) is Some,
            errors@.len() == start ==> qualified_list(tbl, scopes@, st, bv.take(b as int)) == Some(exprs_view(body@)),
            errs_view(errors@) == errs_view(old(errors)@) + exprs_errs(tbl, scopes@, st, bv.take(b as int)),
        decreases def.body@.len() - b,
    {
        proof {
            let t = bv.take(b + 1);
            assert(t.drop_last() =~= bv.take(b as int));
            lemma_exprs_view_index(def.body@, b as int);
            assert(t.last() == def.body@[b as int]@);
        }
        match qualify_expression(modules, scopes, &def.stack, &def.body[b]) {
            Ok(e) => {
                proof {
                    lemma_exprs_view_push(body@, e);
                }
                body.push(e);
            },
            Err(mut es) => {
                proof {
                    lemma_errs_view_add(errors@, es@);
                }
                errors.append(&mut es);
            },
        }
        b = b + 1;
    }
    proof {
        assert(bv.take(b as int) =~= bv);
    }
    Definition {
        typ: def.typ,
        name: def.name.clone(),
        stack: copy_stack(&def.stack),
        body,
        span: def.span,
        unique_id: def.unique_id,
    }
}

/// A group with the calls of its definitions qualified; errors are added for
/// those not in scope.
fn qualify_group(
    modules: &Vec<ModuleAst>,
    scopes: &Vec<usize>,
    group: &DefinitionGroup,
    errors: &mut Vec<SemanticError>,
) -> (r: DefinitionGroup)
    requires
        scopes@.len() >= 1,
        forall|i: int| 0 <= i < scopes@.len() ==> #[trigger] scopes@[i] < modules@.len(),
    ensures
        final(errors)@.len() >= old(errors)@.len(),
        (final(errors)@.len() == old(errors)@.len()) <==> qualified_defs(module_table(modules@), scopes@, defs_view(group.defs@)) is Some,
        final(errors)@.len() == old(errors)@.len() ==> r.name@ == group.name@ && Some(defs_view(r.defs@))
            == qualified_defs(module_table(modules@), scopes@, defs_view(group.defs@)),
        errs_view(final(errors)@) == errs_view(old(errors)@) + defs_errs(module_table(modules@), scopes@, defs_view(group.defs@)),
{
    let ghost tbl = module_table(modules@);
    let ghost dv = defs_view(group.defs@);
    let ghost start = errors@.len();
    let mut defs: Vec<Definition> = Vec::new();
    proof {
        assert(dv.take(0) =~= Seq::<DefModel>::empty());
        assert(defs_view(defs@) =~= Seq::<DefModel>::empty());
        assert(errs_view(old(errors)@) + Seq::<ErrModel>::empty() =~= errs_view(old(errors)@));
    }
    let mut d: usize = 0;
    while d < group.defs.len()
        invariant
            d <= group.defs@.len(),
            scopes@.len() >= 1,
            forall|j: int| 0 <= j < scopes@.len() ==> #[trigger] scopes@[j] < modules@.len(),
            tbl == module_table(modules@),
            dv == defs_view(group.defs@),
            errors@.len() >= start,
            start == old(errors)@.len(),
            errors@.len() == start <==> qualified_defs(tbl, scopes@, dv.take(d as int)) is Some,
            errors@.len() == start ==> qualified_defs(tbl, scopes@, dv.take(d as int)) == Some(defs_view(defs@)),
            errs_view(errors@) == errs_view(old(errors)@) + defs_errs(tbl, scopes@, dv.take(d as int)),
        decreases group.defs@.len() - d,
    {
        proof {
            let t = dv.take(d + 1);
            assert(t.drop_last() =~= dv.take(d as int));
            assert(t.last() == group.defs@[d as int]@);
        }
        let q = qualify_definition(modules, scopes, &group.defs[d], errors);
        proof {
            assert(defs_view(defs@.push(q)) =~= defs_view(defs@).push(q@));
        }
        defs.push(q);
        d = d + 1;
    }
    proof {
        assert(dv.take(d as int) =~= dv);
    }
    DefinitionGroup { name: group.name.clone(), defs }
}

/// The module without the groups that have two definitions with the same stack
/// pattern.
pub open spec fn without_duplicate_groups(gs: Seq<DefinitionGroup>) -> Seq<DefinitionGroup>
    decreases gs.len(),
{
    if gs.len() == 0 {
        Seq::empty()
    } else if has_duplicates(gs.last().defs@) {
        without_duplicate_groups(gs.drop_last())
    } else {
        without_duplicate_groups(gs.drop_last()).push(gs.last())
    }
}

/// No group has two definitions with the same stack pattern.
pub open spec fn no_duplicate_groups(gs: Seq<DefinitionGroup>) -> bool {
    forall|g: int| 0 <= g < gs.len() ==> !has_duplicates(#[trigger] gs[g].defs@)
}

/// Two definitions of one group whose stack patterns have equal entries,
/// wherever those patterns stand in the source, are duplicates: the groups then
/// fail the check that `apply_semantics` succeeds on, so it reports errors. The
/// same holds of two definitions that both have no pattern.
pub proof fn lemma_equal_entries_are_duplicates(gs: Seq<DefinitionGroup>, g: int, j: int, l: int)
    requires
        0 <= g < gs.len(),
        0 <= j < l < gs[g].defs@.len(),
        (gs[g].defs@[j].stack is None && gs[g].defs@[l].stack is None) || (gs[g].defs@[j].stack is Some
            && gs[g].defs@[l].stack is Some && gs[g].defs@[j].stack->0.args@ == gs[g].defs@[
            l].stack->0.args@),
    ensures
        !no_duplicate_groups(gs),
{
    let defs = gs[g].defs@;
    assert(same_pattern(defs[l].stack, defs[j].stack));
    assert(has_duplicates(gs[g].defs@));
}

/// Two optional stack patterns have the same entries: both absent, or both there
/// with equal lists of entries. Their spans play no part.
pub open spec fn equal_entries(a: Option<StackArgs>, b: Option<StackArgs>) -> bool {
    (a is None && b is None) || (a is Some && b is Some && a->0.args@ == b->0.args@)
}

/// The groups pass the duplicate check exactly when no group has two definitions
/// whose stack patterns have the same entries.
pub proof fn lemma_duplicates_exact(gs: Seq<DefinitionGroup>)
    ensures
        no_duplicate_groups(gs) == !exists|g: int, j: int, l: int|
            0 <= g < gs.len() && 0 <= j < l < gs[g].defs@.len() && #[trigger] equal_entries(
                gs[g].defs@[j].stack,
                gs[g].defs@[l].stack,
            ),
{
    if !no_duplicate_groups(gs) {
        let g = choose|g: int| 0 <= g < gs.len() && has_duplicates(#[trigger] gs[g].defs@);
        let d = gs[g].defs@;
        let (j, l) = choose|j: int, l: int| 0 <= j < l < d.len() && same_pattern(#[trigger] d[l].stack, #[trigger] d[j].stack);
        assert(equal_entries(gs[g].defs@[j].stack, gs[g].defs@[l].stack));
    }
    if exists|g: int, j: int, l: int|
        0 <= g < gs.len() && 0 <= j < l < gs[g].defs@.len() && #[trigger] equal_entries(
            gs[g].defs@[j].stack,
            gs[g].defs@[l].stack,
        ) {
        let (g, j, l) = choose|g: int, j: int, l: int|
            0 <= g < gs.len() && 0 <= j < l < gs[g].defs@.len() && #[trigger] equal_entries(
                gs[g].defs@[j].stack,
                gs[g].defs@[l].stack,
            );
        lemma_equal_entries_are_duplicates(gs, g, j, l);
    }
}

proof fn lemma_without_duplicates_none(gs: Seq<DefinitionGroup>)
    requires
        no_duplicate_groups(gs),
    ensures
        without_duplicate_groups(gs) == gs,
    decreases gs.len(),
{
    if gs.len() > 0 {
        assert(gs.last() == gs[gs.len() - 1]);
        lemma_without_duplicates_none(gs.drop_last());
        assert(gs.drop_last().push(gs.last()) =~= gs);
    }
}

/// The module without the groups of names that have two definitions with the same
/// stack pattern; those are reported to `errors`.
fn without_duplicates(m: ModuleAst, errors: &mut Vec<SemanticError>) -> (r: ModuleAst)
    ensures
        r.name == m.name,
        r.imports == m.imports,
        r.definitions@ == without_duplicate_groups(m.definitions@),
        final(errors)@.len() >= old(errors)@.len(),
        (final(errors)@.len() == old(errors)@.len()) <==> no_duplicate_groups(m.definitions@),
        errs_view(final(errors)@) == errs_view(old(errors)@) + dup_errs(m.definitions@, m.name@),
{
    let ghost all = m.definitions@;
    let ghost mname = m.name;
    let ModuleAst { name, imports, definitions } = m;
    let mut groups = definitions;
    let mut kept: Vec<DefinitionGroup> = Vec::new();
    let ghost mut done: int = 0;
    proof {
        assert(all.take(0) =~= Seq::<DefinitionGroup>::empty());
        assert(groups@ =~= all.skip(0));
        assert(errs_view(old(errors)@) + Seq::<ErrModel>::empty() =~= errs_view(old(errors)@));
    }
    while groups.len() > 0
        invariant
            0 <= done <= all.len(),
            groups@ == all.skip(done),
            kept@ == without_duplicate_groups(all.take(done)),
            errors@.len() >= old(errors)@.len(),
            (errors@.len() == old(errors)@.len()) <==> no_duplicate_groups(all.take(done)),
            name == mname,
            errs_view(errors@) == errs_view(old(errors)@) + dup_errs(all.take(done), mname@),
        decreases groups@.len(),
    {
        let group = groups.remove(0);
        proof {
            let t = all.take(done + 1);
            assert(t.drop_last() =~= all.take(done));
            assert(all.skip(done)[0] == all[done]);
            assert(t.last() == all[done]);
            assert(groups@ =~= all.skip(done + 1));
            assert(no_duplicate_groups(t) == (no_duplicate_groups(all.take(done)) && !has_duplicates(all[done].defs@))) by {
                if no_duplicate_groups(t) {
                    assert forall|g: int| 0 <= g < done implies !has_duplicates(#[trigger] all.take(done)[g].defs@) by {
                        assert(t[g] == all.take(done)[g]);
                    }
                    assert(t[done] == all[done]);
                }
            }
        }
        let ghost before_errs = errors@;
        if any_duplicates(&group.defs) {
            report_duplicates(&group, &name, errors);
            proof {
                let d = group.defs@;
                let (j, l) = choose|j: int, l: int|
                    0 <= j < l < d.len() && same_pattern(#[trigger] d[l].stack, #[trigger] d[j].stack);
                lemma_dups_reported(d, j, l);
                lemma_reported_view(errors@, before_errs, group, name, reports_from(d, 0));
            }
        } else {
            kept.push(group);
        }
        proof {
            let t = all.take(done + 1);
            assert(t.last() == group);
            assert(t.drop_last() =~= all.take(done));
        }
        proof {
            done = done + 1;
        }
    }
    proof {
        assert(all.take(done) =~= all);
    }
    ModuleAst { name, imports, definitions: kept }
}

/// The module with every call of its definitions qualified. The scopes are the
/// modules it imports, then itself.
fn qualify_module(modules: &Vec<ModuleAst>, i: usize, errors: &mut Vec<SemanticError>) -> (r: ModuleAst)
    requires
        i < modules@.len(),
    ensures
        r.name@ == modules@[i as int].name@,
        imports_view(r.imports@) == imports_view(modules@[i as int].imports@),
        final(errors)@.len() >= old(errors)@.len(),
        (final(errors)@.len() == old(errors)@.len()) <==> qualified_module(
            module_table(modules@),
            imports_view(modules@[i as int].imports@),
            i as int,
            groups_view(modules@[i as int].definitions@),
        ) is Some,
        final(errors)@.len() == old(errors)@.len() ==> Some(groups_view(r.definitions@)) == qualified_module(
            module_table(modules@),
            imports_view(modules@[i as int].imports@),
            i as int,
            groups_view(modules@[i as int].definitions@),
        ),
        errs_view(final(errors)@) == errs_view(old(errors)@) + module_errs(
            module_table(modules@),
            imports_view(modules@[i as int].imports@),
            i as int,
            groups_view(modules@[i as int].definitions@),
        ),
{
    let ghost tbl = module_table(modules@);
    let m = &modules[i];
    let ghost iv = imports_view(m.imports@);
    let ghost gv = groups_view(m.definitions@);
    let ghost start = errors@.len();
    let mut scopes: Vec<usize> = Vec::new();
    proof {
        assert(iv.take(0) =~= Seq::<(Seq<char>, SpanModel)>::empty());
        assert(errs_view(old(errors)@) + Seq::<ErrModel>::empty() =~= errs_view(old(errors)@));
    }
    let mut k: usize = 0;
    while k < m.imports.len()
        invariant
            k <= m.imports@.len(),
            i < modules@.len(),
            *m == modules@[i as int],
            tbl == module_table(modules@),
            iv == imports_view(m.imports@),
            forall|j: int| 0 <= j < scopes@.len() ==> #[trigger] scopes@[j] < modules@.len(),
            scopes@ == import_scopes(tbl, iv.take(k as int)),
            errors@.len() >= start,
            start == old(errors)@.len(),
            errors@.len() == start <==> imports_found(tbl, iv.take(k as int)),
            errs_view(errors@) == errs_view(old(errors)@) + import_errs(tbl, iv.take(k as int)),
        decreases m.imports@.len() - k,
    {
        proof {
            let t = iv.take(k + 1);
            assert(t.drop_last() =~= iv.take(k as int));
            assert(t.last() == iv[k as int]);
            assert(iv[k as int].0 == m.imports@[k as int].0@);
            assert(imports_found(tbl, t) == (imports_found(tbl, iv.take(k as int)) && module_named(tbl, iv[k as int].0, 0) is Some)) by {
                if imports_found(tbl, t) {
                    assert forall|x: int| 0 <= x < k implies (#[trigger] module_named(tbl, iv.take(k as int)[x].0, 0)) is Some by {
                        assert(t[x] == iv.take(k as int)[x]);
                    }
                    assert(t[k as int] == iv[k as int]);
                } else {
                    if imports_found(tbl, iv.take(k as int)) && module_named(tbl, iv[k as int].0, 0) is Some {
                        assert forall|x: int| 0 <= x < t.len() implies (#[trigger] module_named(tbl, t[x].0, 0)) is Some by {
                            if x < k {
                                assert(t[x] == iv.take(k as int)[x]);
                            }
                        }
                    }
                }
            }
        }
        let ghost before_errs = errors@;
        match module_index(modules, &m.imports[k].0) {
            Some(j) => scopes.push(j),
            None => errors.push(SemanticError::ModuleNotFound { module: m.imports[k].0.clone(), span: m.imports[k].1 }),
        }
        proof {
            let t = iv.take(k + 1);
            assert(iv[k as int] == (m.imports@[k as int].0@, m.imports@[k as int].1@));
            if errors@.len() > before_errs.len() {
                lemma_errs_view_push(before_errs, errors@.last());
                assert(errors@ == before_errs.push(errors@.last()));
            }
            assert(errs_view(errors@) =~= errs_view(old(errors)@) + import_errs(tbl, t));
        }
        k = k + 1;
    }
    proof {
        assert(iv.take(k as int) =~= iv);
    }
    let ghost after_imports = errors@.len();
    scopes.push(i);
    let mut groups: Vec<DefinitionGroup> = Vec::new();
    proof {
        assert(gv.take(0) =~= Seq::<(Seq<char>, Seq<DefModel>)>::empty());
        assert(groups_view(groups@) =~= Seq::<(Seq<char>, Seq<DefModel>)>::empty());
        assert(errs_view(old(errors)@) + import_errs(tbl, iv) + Seq::<ErrModel>::empty() =~= errs_view(old(errors)@)
            + import_errs(tbl, iv));
    }
    let mut g: usize = 0;
    while g < m.definitions.len()
        invariant
            g <= m.definitions@.len(),
            *m == modules@[i as int],
            tbl == module_table(modules@),
            gv == groups_view(m.definitions@),
            scopes@ == import_scopes(tbl, iv).push(i),
            forall|j: int| 0 <= j < scopes@.len() ==> #[trigger] scopes@[j] < modules@.len(),
            errors@.len() >= after_imports,
            after_imports >= start,
            start == old(errors)@.len(),
            after_imports == start <==> imports_found(tbl, iv),
            errors@.len() == after_imports <==> qualified_groups(tbl, scopes@, gv.take(g as int)) is Some,
            errors@.len() == after_imports ==> qualified_groups(tbl, scopes@, gv.take(g as int)) == Some(groups_view(groups@)),
            errs_view(errors@) == errs_view(old(errors)@) + import_errs(tbl, iv) + groups_errs(tbl, scopes@, gv.take(g as int)),
        decreases m.definitions@.len() - g,
    {
        proof {
            let t = gv.take(g + 1);
            assert(t.drop_last() =~= gv.take(g as int));
            assert(t.last() == gv[g as int]);
        }
        let q = qualify_group(modules, &scopes, &m.definitions[g], errors);
        proof {
            assert(groups_view(groups@.push(q)) =~= groups_view(groups@).push((q.name@, defs_view(q.defs@))));
            assert(gv[g as int].1 == defs_view(m.definitions@[g as int].defs@));
        }
        groups.push(q);
        g = g + 1;
    }
    proof {
        assert(gv.take(g as int) =~= gv);
    }
    let mut imports: Vec<(String, Span)> = Vec::new();
    let mut k: usize = 0;
    while k < m.imports.len()
        invariant
            k <= m.imports@.len(),
            imports_view(imports@) == imports_view(m.imports@).take(k as int),
        decreases m.imports@.len() - k,
    {
        let item = (m.imports[k].0.clone(), m.imports[k].1);
        proof {
            let a = imports_view(imports@.push(item));
            let b = imports_view(m.imports@).take(k + 1);
            assert(imports_view(imports@).len() == imports@.len());
            assert(imports@.len() == k);
            assert(a.len() == k + 1);
            assert(b.len() == k + 1);
            assert forall|x: int| 0 <= x < a.len() implies a[x] == b[x] by {
                if x < k {
                    assert(a[x] == imports_view(imports@)[x]);
                } else {
                    assert(item.0 == m.imports@[k as int].0);
                }
            }
            assert(a =~= b);
        }
        imports.push(item);
        k = k + 1;
    }
    proof {
        assert(imports_view(m.imports@).take(k as int) =~= imports_view(m.imports@));
    }
    ModuleAst { name: m.name.clone(), imports, definitions: groups }
}

/// Semantic analysis of a program. Names defined twice with the same stack
/// pattern are reported (and left out); then the calls of every definition are
/// qualified with the module that defines them, and calls that no module in scope
/// defines are reported. Returns the qualified modules, in the same order, when
/// nothing was reported.
pub fn apply_semantics(modules: Vec<ModuleAst>) -> (r: Result<Vec<ModuleAst>, Vec<SemanticError>>)
    ensures
        r is Ok <==> forall|i: int|
            0 <= i < modules@.len() ==> no_duplicate_groups(#[trigger] modules@[i].definitions@) && qualified_module(
                module_table(modules@),
                imports_view(modules@[i].imports@),
                i,
                groups_view(modules@[i].definitions@),
            ) is Some,
        r matches Ok(out) ==> out@.len() == modules@.len() && forall|i: int|
            0 <= i < out@.len() ==> {
                &&& (#[trigger] out@[i]).name@ == modules@[i].name@
                &&& imports_view(out@[i].imports@) == imports_view(modules@[i].imports@)
                &&& Some(groups_view(out@[i].definitions@)) == qualified_module(
                    module_table(modules@),
                    imports_view(modules@[i].imports@),
                    i,
                    groups_view(modules@[i].definitions@),
                )
            },
        r matches Err(errors) ==> errors@.len() > 0,
        r matches Err(errors) ==> errs_view(errors@) == semantic_errors(modules@),
        r matches Ok(out) ==> (distinct_names(modules@) ==> distinct_names(out@) && program_calls_found(out@)),
        r matches Ok(out) ==> (modules_shape_ok(modules@) ==> modules_shape_ok(out@)),
{
    let ghost all = modules@;
    let mut errors: Vec<SemanticError> = Vec::new();
    let mut rest = modules;
    let mut clean: Vec<ModuleAst> = Vec::new();
    while rest.len() > 0
        invariant
            clean@.len() + rest@.len() == all.len(),
            rest@ == all.skip(clean@.len() as int),
            forall|j: int| 0 <= j < clean@.len() ==> {
                &&& (#[trigger] clean@[j]).name == all[j].name
                &&& clean@[j].imports == all[j].imports
                &&& clean@[j].definitions@ == without_duplicate_groups(all[j].definitions@)
            },
            errors@.len() == 0 <==> forall|j: int| 0 <= j < clean@.len() ==> no_duplicate_groups(#[trigger] all[j].definitions@),
            errs_view(errors@) == all_dup_errs(all, clean@.len() as int),
        decreases rest@.len(),
    {
        let ghost c0 = clean@.len() as int;
        let m = rest.remove(0);
        proof {
            assert(all.skip(c0)[0] == all[c0]);
            assert(rest@ =~= all.skip(c0 + 1));
        }
        let c = without_duplicates(m, &mut errors);
        clean.push(c);
        proof {
            if errors@.len() == 0 {
                assert forall|j: int| 0 <= j < clean@.len() implies no_duplicate_groups(#[trigger] all[j].definitions@) by {
                    if j < c0 {
                    }
                }
            }
        }
    }
    let ghost e1 = errors@.len();
    let ghost ctbl = module_table(clean@);
    proof {
        assert(ctbl =~= clean_table(all));
        assert(all_dup_errs(all, all.len() as int) + all_scope_errs(all, 0) =~= all_dup_errs(all, all.len() as int));
    }
    let mut out: Vec<ModuleAst> = Vec::new();
    let mut i: usize = 0;
    while i < clean.len()
        invariant
            i <= clean@.len(),
            out@.len() == i,
            clean@.len() == all.len(),
            ctbl == module_table(clean@),
            forall|j: int| 0 <= j < clean@.len() ==> {
                &&& (#[trigger] clean@[j]).name == all[j].name
                &&& clean@[j].imports == all[j].imports
                &&& clean@[j].definitions@ == without_duplicate_groups(all[j].definitions@)
            },
            e1 == 0 <==> forall|j: int| 0 <= j < all.len() ==> no_duplicate_groups(#[trigger] all[j].definitions@),
            errors@.len() >= e1,
            errors@.len() == 0 <==> (e1 == 0 && forall|j: int|
                0 <= j < i ==> (#[trigger] qualified_module(
                    ctbl,
                    imports_view(clean@[j].imports@),
                    j,
                    groups_view(clean@[j].definitions@),
                )) is Some),
            ctbl == clean_table(all),
            errs_view(errors@) == all_dup_errs(all, all.len() as int) + all_scope_errs(all, i as int),
            errors@.len() == 0 ==> forall|j: int|
                0 <= j < i ==> {
                    &&& (#[trigger] out@[j]).name@ == clean@[j].name@
                    &&& imports_view(out@[j].imports@) == imports_view(clean@[j].imports@)
                    &&& Some(groups_view(out@[j].definitions@)) == qualified_module(
                        ctbl,
                        imports_view(clean@[j].imports@),
                        j,
                        groups_view(clean@[j].definitions@),
                    )
                },
        decreases clean@.len() - i,
    {
        let q = qualify_module(&clean, i, &mut errors);
        proof {
            assert(clean@[i as int].definitions@ == without_duplicate_groups(all[i as int].definitions@));
            assert(imports_view(clean@[i as int].imports@) == imports_view(all[i as int].imports@));
        }
        out.push(q);
        proof {
            if errors@.len() == 0 {
                assert forall|j: int| 0 <= j < i + 1 implies (#[trigger] qualified_module(
                    ctbl,
                    imports_view(clean@[j].imports@),
                    j,
                    groups_view(clean@[j].definitions@),
                )) is Some by {}
            }
        }
        i = i + 1;
    }
    proof {
        if e1 == 0 {
            assert forall|j: int| 0 <= j < all.len() implies clean@[j].definitions@ == all[j].definitions@ by {
                assert(no_duplicate_groups(all[j].definitions@));
                lemma_without_duplicates_none(all[j].definitions@);
            }
            assert(ctbl =~= module_table(all));
            assert forall|j: int| 0 <= j < all.len() implies qualified_module(
                ctbl,
                imports_view(clean@[j].imports@),
                j,
                groups_view(clean@[j].definitions@),
            ) == qualified_module(
                module_table(all),
                imports_view(all[j].imports@),
                j,
                groups_view(all[j].definitions@),
            ) by {
                assert(clean@[j].definitions@ == all[j].definitions@);
            }
        }
        if forall|j: int| 0 <= j < all.len() ==> no_duplicate_groups(#[trigger] all[j].definitions@) && qualified_module(
                module_table(all),
                imports_view(all[j].imports@),
                j,
                groups_view(all[j].definitions@),
            ) is Some {
            assert(e1 == 0);
            assert forall|j: int| 0 <= j < i implies (#[trigger] qualified_module(
                ctbl,
                imports_view(clean@[j].imports@),
                j,
                groups_view(clean@[j].definitions@),
            )) is Some by {
                assert(no_duplicate_groups(all[j].definitions@));
            }
        }
    }
    if errors.len() == 0 {
        proof {
            if distinct_names(all) {
                lemma_analysis_calls_found(all, out@);
            }
            if modules_shape_ok(all) {
                lemma_analysis_shape(all, out@);
            }
        }
        Ok(out)
    } else {
        Err(errors)
    }
}

/// Every call of the expression is found as code generation looks calls up, or
/// is an unqualified letter of the stack pattern.
pub open spec fn calls_found(modules: Seq<ModuleAst>, stack: Option<(Seq<StackArg>, SpanModel)>, e: ExprModel) -> bool
    decreases e,
{
    match e {
        ExprModel::Quotation(q, _) => all_calls_found(modules, stack, q),
        ExprModel::Function(m, n, _) => lookup_defs(modules, m, n) is Some || (m.len() == 0 && is_pattern_letter(
            stack,
            n,
        )),
        _ => true,
    }
}

/// Every expression of the list has its calls found.
pub open spec fn all_calls_found(
    modules: Seq<ModuleAst>,
    stack: Option<(Seq<StackArg>, SpanModel)>,
    es: Seq<ExprModel>,
) -> bool
    decreases es,
{
    if es.len() == 0 {
        true
    } else {
        all_calls_found(modules, stack, es.drop_last()) && calls_found(modules, stack, es.last())
    }
}

/// No two modules have the same name.
pub open spec fn distinct_names(modules: Seq<ModuleAst>) -> bool {
    forall|a: int, b: int| 0 <= a < b < modules.len() ==> modules[a].name@ != modules[b].name@
}

proof fn lemma_lookup_defs(modules: Seq<ModuleAst>, k: int, name: Seq<char>)
    requires
        0 <= k < modules.len(),
        forall|a: int, b: int| 0 <= a < b < modules.len() ==> modules[a].name@ != modules[b].name@,
    ensures
        lookup_defs(modules, modules[k].name@, name) == group_defs(modules[k].definitions@, name),
    decreases modules.len(),
{
    if k > 0 {
        let rest = modules.drop_first();
        assert(modules[0].name@ != modules[k].name@);
        assert(rest[k - 1] == modules[k]);
        assert forall|a: int, b: int| 0 <= a < b < rest.len() implies rest[a].name@ != rest[b].name@ by {
            assert(rest[a] == modules[a + 1]);
            assert(rest[b] == modules[b + 1]);
        }
        lemma_lookup_defs(rest, k - 1, name);
    }
}

proof fn lemma_scope_defining_range(
    tbl: Seq<(Seq<char>, Seq<DefinitionGroup>)>,
    scopes: Seq<usize>,
    name: Seq<char>,
    k: int,
)
    ensures
        scope_defining(tbl, scopes, name, k) matches Some(i) ==> 0 <= i < scopes.len() && defines(
            tbl[scopes[i] as int].1,
            name,
        ),
    decreases k,
{
    if 0 < k <= scopes.len() && !defines(tbl[scopes[k - 1] as int].1, name) {
        lemma_scope_defining_range(tbl, scopes, name, k - 1);
    }
}

proof fn lemma_scope_named_range(
    tbl: Seq<(Seq<char>, Seq<DefinitionGroup>)>,
    scopes: Seq<usize>,
    module: Seq<char>,
    k: int,
)
    ensures
        scope_named(tbl, scopes, module, k) matches Some(i) ==> 0 <= i < scopes.len() && tbl[scopes[i] as int].0
            == module,
    decreases scopes.len() - k,
{
    if 0 <= k < scopes.len() && tbl[scopes[k] as int].0 != module {
        lemma_scope_named_range(tbl, scopes, module, k + 1);
    }
}

/// After qualification every call names a module that defines it, so that code
/// generation finds it; the other calls left are unqualified letters of the stack
/// pattern. This holds for scopes among modules with distinct names.
pub proof fn lemma_qualified_calls_found(
    modules: Seq<ModuleAst>,
    scopes: Seq<usize>,
    stack: Option<(Seq<StackArg>, SpanModel)>,
    e: ExprModel,
)
    requires
        distinct_names(modules),
        forall|i: int| 0 <= i < scopes.len() ==> #[trigger] scopes[i] < modules.len(),
        qualified(module_table(modules), scopes, stack, e) is Some,
    ensures
        calls_found(modules, stack, qualified(module_table(modules), scopes, stack, e)->0),
    decreases e,
{
    let tbl = module_table(modules);
    match e {
        ExprModel::Quotation(q, _) => {
            lemma_qualified_list_calls_found(modules, scopes, stack, q);
        },
        ExprModel::Function(m, n, _) => {
            if !(m.len() == 0 && is_pattern_letter(stack, n)) {
                if m.len() > 0 {
                    lemma_scope_named_range(tbl, scopes, m, 0);
                    let i = scope_named(tbl, scopes, m, 0)->0;
                    lemma_lookup_defs(modules, scopes[i] as int, n);
                } else {
                    lemma_scope_defining_range(tbl, scopes, n, scopes.len() as int);
                    let i = scope_defining(tbl, scopes, n, scopes.len() as int)->0;
                    lemma_lookup_defs(modules, scopes[i] as int, n);
                }
            }
        },
        _ => {},
    }
}

/// After qualification every call of the list names a module that defines it.
pub proof fn lemma_qualified_list_calls_found(
    modules: Seq<ModuleAst>,
    scopes: Seq<usize>,
    stack: Option<(Seq<StackArg>, SpanModel)>,
    es: Seq<ExprModel>,
)
    requires
        distinct_names(modules),
        forall|i: int| 0 <= i < scopes.len() ==> #[trigger] scopes[i] < modules.len(),
        qualified_list(module_table(modules), scopes, stack, es) is Some,
    ensures
        all_calls_found(modules, stack, qualified_list(module_table(modules), scopes, stack, es)->0),
    decreases es,
{
    if es.len() > 0 {
        let tbl = module_table(modules);
        lemma_qualified_list_calls_found(modules, scopes, stack, es.drop_last());
        lemma_qualified_calls_found(modules, scopes, stack, es.last());
        let r = qualified_list(tbl, scopes, stack, es)->0;
        let a = qualified_list(tbl, scopes, stack, es.drop_last())->0;
        assert(r.drop_last() =~= a);
    }
}

/// The modules' names, each with the names of its groups: all that decides
/// whether a lookup finds a definition.
pub open spec fn name_table(modules: Seq<ModuleAst>) -> Seq<(Seq<char>, Seq<Seq<char>>)> {
    modules.map_values(|m: ModuleAst| (m.name@, m.definitions@.map_values(|g: DefinitionGroup| g.name@)))
}

proof fn lemma_group_defs_names(a: Seq<DefinitionGroup>, b: Seq<DefinitionGroup>, name: Seq<char>)
    requires
        a.map_values(|g: DefinitionGroup| g.name@) == b.map_values(|g: DefinitionGroup| g.name@),
    ensures
        group_defs(a, name) is Some <==> group_defs(b, name) is Some,
    decreases a.len(),
{
    let na = a.map_values(|g: DefinitionGroup| g.name@);
    let nb = b.map_values(|g: DefinitionGroup| g.name@);
    assert(na.len() == a.len() && nb.len() == b.len());
    if a.len() > 0 {
        assert(na[0] == a[0].name@ && nb[0] == b[0].name@);
        assert(a.drop_first().map_values(|g: DefinitionGroup| g.name@) =~= na.drop_first());
        assert(b.drop_first().map_values(|g: DefinitionGroup| g.name@) =~= nb.drop_first());
        lemma_group_defs_names(a.drop_first(), b.drop_first(), name);
    }
}

/// Modules with the same names and group names find the same calls.
proof fn lemma_lookup_names(a: Seq<ModuleAst>, b: Seq<ModuleAst>, module: Seq<char>, name: Seq<char>)
    requires
        name_table(a) == name_table(b),
    ensures
        lookup_defs(a, module, name) is Some <==> lookup_defs(b, module, name) is Some,
    decreases a.len(),
{
    assert(name_table(a).len() == a.len() && name_table(b).len() == b.len());
    if a.len() > 0 {
        assert(name_table(a)[0] == name_table(b)[0]);
        if a[0].name@ == module {
            lemma_group_defs_names(a[0].definitions@, b[0].definitions@, name);
        } else {
            assert(name_table(a.drop_first()) =~= name_table(a).drop_first());
            assert(name_table(b.drop_first()) =~= name_table(b).drop_first());
            lemma_lookup_names(a.drop_first(), b.drop_first(), module, name);
        }
    }
}

/// Modules with the same names and group names find the same calls of an
/// expression.
proof fn lemma_calls_found_names(
    a: Seq<ModuleAst>,
    b: Seq<ModuleAst>,
    stack: Option<(Seq<StackArg>, SpanModel)>,
    e: ExprModel,
)
    requires
        name_table(a) == name_table(b),
    ensures
        calls_found(a, stack, e) == calls_found(b, stack, e),
    decreases e,
{
    match e {
        ExprModel::Quotation(q, _) => lemma_all_calls_found_names(a, b, stack, q),
        ExprModel::Function(m, n, _) => lemma_lookup_names(a, b, m, n),
        _ => {},
    }
}

proof fn lemma_all_calls_found_names(
    a: Seq<ModuleAst>,
    b: Seq<ModuleAst>,
    stack: Option<(Seq<StackArg>, SpanModel)>,
    es: Seq<ExprModel>,
)
    requires
        name_table(a) == name_table(b),
    ensures
        all_calls_found(a, stack, es) == all_calls_found(b, stack, es),
    decreases es,
{
    if es.len() > 0 {
        lemma_all_calls_found_names(a, b, stack, es.drop_last());
        lemma_calls_found_names(a, b, stack, es.last());
    }
}

/// The calls of a definition's body are found.
pub open spec fn def_calls_found(modules: Seq<ModuleAst>, d: DefModel) -> bool {
    all_calls_found(modules, d.stack, d.body)
}

/// Every call of every definition of the program is found as code generation
/// looks calls up, or is an unqualified letter of its definition's stack pattern.
pub open spec fn program_calls_found(modules: Seq<ModuleAst>) -> bool {
    forall|i: int, g: int, d: int|
        0 <= i < modules.len() && 0 <= g < groups_view(modules[i].definitions@).len() && 0 <= d
            < groups_view(modules[i].definitions@)[g].1.len() ==> #[trigger] def_calls_found(
            modules,
            groups_view(modules[i].definitions@)[g].1[d],
        )
}

proof fn lemma_import_scopes_range(tbl: Seq<(Seq<char>, Seq<DefinitionGroup>)>, imports: Seq<(Seq<char>, SpanModel)>)
    requires
        tbl.len() <= usize::MAX,
    ensures
        forall|k: int| 0 <= k < import_scopes(tbl, imports).len() ==> #[trigger] import_scopes(tbl, imports)[k]
            < tbl.len(),
    decreases imports.len(),
{
    if imports.len() > 0 {
        let before = import_scopes(tbl, imports.drop_last());
        lemma_import_scopes_range(tbl, imports.drop_last());
        lemma_module_named_range(tbl, imports.last().0, 0);
        assert forall|k: int| 0 <= k < import_scopes(tbl, imports).len() implies #[trigger] import_scopes(tbl, imports)[k]
            < tbl.len() by {
            if k < before.len() {
                assert(import_scopes(tbl, imports)[k] == before[k]);
            }
        }
    }
}

proof fn lemma_module_named_range(tbl: Seq<(Seq<char>, Seq<DefinitionGroup>)>, name: Seq<char>, k: int)
    requires
        0 <= k,
    ensures
        module_named(tbl, name, k) matches Some(j) ==> k <= j < tbl.len(),
    decreases tbl.len() - k,
{
    if k < tbl.len() && tbl[k].0 != name {
        lemma_module_named_range(tbl, name, k + 1);
    }
}

/// Qualified definitions have their calls found, and keep their names.
proof fn lemma_qualified_defs_found(modules: Seq<ModuleAst>, scopes: Seq<usize>, ds: Seq<DefModel>)
    requires
        distinct_names(modules),
        forall|i: int| 0 <= i < scopes.len() ==> #[trigger] scopes[i] < modules.len(),
        qualified_defs(module_table(modules), scopes, ds) is Some,
    ensures
        qualified_defs(module_table(modules), scopes, ds)->0.len() == ds.len(),
        forall|d: int|
            0 <= d < ds.len() ==> #[trigger] def_calls_found(modules, qualified_defs(module_table(modules), scopes, ds)->0[d]),
    decreases ds.len(),
{
    if ds.len() > 0 {
        let tbl = module_table(modules);
        lemma_qualified_defs_found(modules, scopes, ds.drop_last());
        let d = ds.last();
        lemma_qualified_list_calls_found(modules, scopes, d.stack, d.body);
        let r = qualified_defs(tbl, scopes, ds)->0;
        let a = qualified_defs(tbl, scopes, ds.drop_last())->0;
        assert forall|k: int| 0 <= k < ds.len() implies #[trigger] def_calls_found(modules, r[k]) by {
            if k < ds.len() - 1 {
                assert(r[k] == a[k]);
            }
        }
    }
}

/// Qualified groups have their calls found, and keep their names.
proof fn lemma_qualified_groups_found(
    modules: Seq<ModuleAst>,
    scopes: Seq<usize>,
    gs: Seq<(Seq<char>, Seq<DefModel>)>,
)
    requires
        distinct_names(modules),
        forall|i: int| 0 <= i < scopes.len() ==> #[trigger] scopes[i] < modules.len(),
        qualified_groups(module_table(modules), scopes, gs) is Some,
    ensures
        qualified_groups(module_table(modules), scopes, gs)->0.len() == gs.len(),
        forall|g: int| 0 <= g < gs.len() ==> (#[trigger] qualified_groups(module_table(modules), scopes, gs)->0[g]).0 == gs[g].0,
        forall|g: int, d: int|
            0 <= g < gs.len() && 0 <= d < qualified_groups(module_table(modules), scopes, gs)->0[g].1.len()
                ==> #[trigger] def_calls_found(modules, qualified_groups(module_table(modules), scopes, gs)->0[g].1[d]),
    decreases gs.len(),
{
    if gs.len() > 0 {
        let tbl = module_table(modules);
        lemma_qualified_groups_found(modules, scopes, gs.drop_last());
        lemma_qualified_defs_found(modules, scopes, gs.last().1);
        let r = qualified_groups(tbl, scopes, gs)->0;
        let a = qualified_groups(tbl, scopes, gs.drop_last())->0;
        assert forall|g: int| 0 <= g < gs.len() implies (#[trigger] r[g]).0 == gs[g].0 by {
            if g < gs.len() - 1 {
                assert(r[g] == a[g]);
            }
        }
        assert forall|g: int, d: int| 0 <= g < gs.len() && 0 <= d < r[g].1.len() implies #[trigger] def_calls_found(modules, r[g].1[d]) by {
            if g < gs.len() - 1 {
                assert(r[g] == a[g]);
            }
        }
    }
}

/// Modules whose groups are the qualified groups of modules with distinct names
/// (keeping each module's name) have distinct names, and every call of every
/// definition is found in them.
proof fn lemma_analysis_calls_found(all: Seq<ModuleAst>, out: Seq<ModuleAst>)
    requires
        distinct_names(all),
        all.len() <= usize::MAX,
        out.len() == all.len(),
        forall|i: int|
            0 <= i < out.len() ==> (#[trigger] out[i]).name@ == all[i].name@ && Some(groups_view(out[i].definitions@))
                == qualified_module(
                module_table(all),
                imports_view(all[i].imports@),
                i,
                groups_view(all[i].definitions@),
            ),
    ensures
        distinct_names(out),
        program_calls_found(out),
{
    let tbl = module_table(all);
    assert forall|i: int| 0 <= i < all.len() implies {
        &&& (#[trigger] name_table(all)[i]) == name_table(out)[i]
        &&& forall|g: int, d: int|
            0 <= g < groups_view(out[i].definitions@).len() && 0 <= d < groups_view(out[i].definitions@)[g].1.len()
                ==> #[trigger] def_calls_found(all, groups_view(out[i].definitions@)[g].1[d])
    } by {
        assert(out[i].name@ == all[i].name@);
        let iv = imports_view(all[i].imports@);
        let gv = groups_view(all[i].definitions@);
        let scopes = import_scopes(tbl, iv).push(i as usize);
        lemma_import_scopes_range(tbl, iv);
        assert forall|k: int| 0 <= k < scopes.len() implies #[trigger] scopes[k] < all.len() by {
            if k < scopes.len() - 1 {
                assert(scopes[k] == import_scopes(tbl, iv)[k]);
            }
        }
        lemma_qualified_groups_found(all, scopes, gv);
        let ov = groups_view(out[i].definitions@);
        assert(ov == qualified_groups(tbl, scopes, gv)->0);
        let na = all[i].definitions@.map_values(|g: DefinitionGroup| g.name@);
        let no = out[i].definitions@.map_values(|g: DefinitionGroup| g.name@);
        assert forall|g: int| 0 <= g < na.len() implies na[g] == no[g] by {
            assert(ov[g].0 == gv[g].0);
        }
        assert(na =~= no);
    }
    assert(name_table(all) =~= name_table(out));
    assert forall|i: int, g: int, d: int|
        0 <= i < out.len() && 0 <= g < groups_view(out[i].definitions@).len() && 0 <= d
            < groups_view(out[i].definitions@)[g].1.len() implies #[trigger] def_calls_found(
        out,
        groups_view(out[i].definitions@)[g].1[d],
    ) by {
        let x = groups_view(out[i].definitions@)[g].1[d];
        assert(name_table(all)[i] == name_table(out)[i]);
        assert(def_calls_found(all, x));
        lemma_all_calls_found_names(all, out, x.stack, x.body);
    }
    assert forall|a: int, b: int| 0 <= a < b < out.len() implies out[a].name@ != out[b].name@ by {
        assert(out[a].name@ == all[a].name@);
        assert(out[b].name@ == all[b].name@);
    }
}

/// Every definition of every module has its shape.
pub open spec fn modules_shape_ok(modules: Seq<ModuleAst>) -> bool {
    forall|i: int| 0 <= i < modules.len() ==> #[trigger] groups_shape_ok(groups_view(modules[i].definitions@))
}

proof fn lemma_qualified_defs_shape(tbl: Seq<(Seq<char>, Seq<DefinitionGroup>)>, scopes: Seq<usize>, ds: Seq<DefModel>)
    requires
        forall|d: int| 0 <= d < ds.len() ==> #[trigger] def_shape_ok(ds[d]),
        qualified_defs(tbl, scopes, ds) is Some,
    ensures
        qualified_defs(tbl, scopes, ds)->0.len() == ds.len(),
        forall|d: int| 0 <= d < ds.len() ==> #[trigger] def_shape_ok(qualified_defs(tbl, scopes, ds)->0[d]),
    decreases ds.len(),
{
    if ds.len() > 0 {
        assert forall|d: int| 0 <= d < ds.drop_last().len() implies #[trigger] def_shape_ok(ds.drop_last()[d]) by {
            assert(ds.drop_last()[d] == ds[d]);
        }
        lemma_qualified_defs_shape(tbl, scopes, ds.drop_last());
        let r = qualified_defs(tbl, scopes, ds)->0;
        let a = qualified_defs(tbl, scopes, ds.drop_last())->0;
        assert(def_shape_ok(ds[ds.len() - 1]));
        assert forall|d: int| 0 <= d < ds.len() implies #[trigger] def_shape_ok(r[d]) by {
            if d < ds.len() - 1 {
                assert(r[d] == a[d]);
            }
        }
    }
}

/// Qualifying keeps the shapes of definitions.
proof fn lemma_qualified_groups_shape(
    tbl: Seq<(Seq<char>, Seq<DefinitionGroup>)>,
    scopes: Seq<usize>,
    gs: Seq<(Seq<char>, Seq<DefModel>)>,
)
    requires
        groups_shape_ok(gs),
        qualified_groups(tbl, scopes, gs) is Some,
    ensures
        groups_shape_ok(qualified_groups(tbl, scopes, gs)->0),
    decreases gs.len(),
{
    if gs.len() > 0 {
        let last = gs.last();
        assert(groups_shape_ok(gs.drop_last())) by {
            assert forall|g: int, d: int| 0 <= g < gs.drop_last().len() && 0 <= d < gs.drop_last()[g].1.len() implies #[trigger] def_shape_ok(
                gs.drop_last()[g].1[d],
            ) by {
                assert(gs.drop_last()[g] == gs[g]);
            }
        }
        assert forall|d: int| 0 <= d < last.1.len() implies #[trigger] def_shape_ok(last.1[d]) by {
            assert(def_shape_ok(gs[gs.len() - 1].1[d]));
        }
        lemma_qualified_groups_shape(tbl, scopes, gs.drop_last());
        lemma_qualified_defs_shape(tbl, scopes, last.1);
        let r = qualified_groups(tbl, scopes, gs)->0;
        let a = qualified_groups(tbl, scopes, gs.drop_last())->0;
        assert forall|g: int, d: int| 0 <= g < r.len() && 0 <= d < r[g].1.len() implies #[trigger] def_shape_ok(r[g].1[d]) by {
            if g < r.len() - 1 {
                assert(r[g] == a[g]);
            }
        }
    }
}

proof fn lemma_analysis_shape(all: Seq<ModuleAst>, out: Seq<ModuleAst>)
    requires
        modules_shape_ok(all),
        out.len() == all.len(),
        forall|i: int|
            0 <= i < out.len() ==> Some(groups_view((#[trigger] out[i]).definitions@)) == qualified_module(
                module_table(all),
                imports_view(all[i].imports@),
                i,
                groups_view(all[i].definitions@),
            ),
    ensures
        modules_shape_ok(out),
{
    assert forall|i: int| 0 <= i < out.len() implies #[trigger] groups_shape_ok(groups_view(out[i].definitions@)) by {
        let tbl = module_table(all);
        let iv = imports_view(all[i].imports@);
        let o = out[i];
        assert(Some(groups_view(o.definitions@)) == qualified_module(tbl, iv, i, groups_view(all[i].definitions@)));
        assert(groups_shape_ok(groups_view(all[i].definitions@)));
        lemma_qualified_groups_shape(tbl, import_scopes(tbl, iv).push(i as usize), groups_view(all[i].definitions@));
    }
}

} // verus!
