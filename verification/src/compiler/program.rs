//! From source texts to a running code generator: parsing the main module,
//! loading the library modules it imports (and theirs), semantic analysis, and
//! finding `main`.
use vstd::prelude::*;

use crate::compiler::ast::find_group;
use crate::compiler::ast::ModuleAst;
use crate::compiler::gen::ExecutionError;
use crate::compiler::gen::GenError;
use crate::compiler::gen::Generator;
use crate::compiler::gen::Step;
use crate::compiler::gen::step_s;
use crate::compiler::gen::step_view;
use crate::compiler::gen::resume_s;
use crate::compiler::gen::initial_model;
use crate::compiler::resolved::gen_found;
use crate::compiler::resolved::lemma_group_def_found;
use crate::compiler::resolved::lemma_initial_found;
use crate::compiler::resolved::lemma_resume_found;
use crate::compiler::resolved::lemma_step_found;
use crate::compiler::progress::builds_tracked;
use crate::compiler::progress::lemma_resume_tracked;
use crate::compiler::progress::lemma_step_tracked;
use crate::compiler::grammar::module_s;
use crate::compiler::source::text_fits;
use crate::compiler::ast::group_defs;
use crate::compiler::parse::parse_module;
use crate::compiler::parse::ParseError;
use crate::compiler::semantic::apply_semantics;
use crate::compiler::semantic::SemanticError;
use crate::compiler::semantic::semantic_errors;
use crate::compiler::semantic::errs_view;
use crate::compiler::semantic::module_named;
use crate::compiler::semantic::module_table;
use crate::compiler::semantic::distinct_names;
use crate::compiler::semantic::program_calls_found;
use crate::compiler::semantic::modules_shape_ok;
use crate::compiler::ast::groups_shape_ok;
use crate::compiler::ast::groups_view;
use crate::compiler::ast::defs_view;
use crate::compiler::ast::DefModel;
use crate::compiler::ast::imports_view;
use crate::compiler::grammar::groups_of;
use crate::compiler::semantic::no_duplicate_groups;
use crate::compiler::semantic::qualified_module;
use crate::compiler::ast::DefinitionGroup;
use crate::config::Config;
use crate::span::Span;
use crate::span::SpanModel;
use vstd::string::StringExecFns;
use vstd::string::StrSliceExecFns;

verus! {

/// An error that stops a compilation.
#[derive(Debug, Clone, PartialEq, Eq)]
pub enum CompileError {
    /// The text of a module does not parse.
    Parse(ParseError),
    /// An import cycle: the module, the chain of imports that leads back to it.
    CircularImport { module: String, chain: String, span: Span },
    /// An imported module that is not among the libraries.
    ModuleNotFound { module: String, span: Span },
    /// The program has a semantic error.
    Semantic(SemanticError),
    /// The main module does not define `main`.
    MainNotFound { module: String },
    /// `main` is defined more than once (the span of the second definition).
    MainHasMatches(Span),
    /// Code generation failed.
    Gen(GenError),
}

/// The modules loaded so far, and the chain of modules being loaded.
struct Dependencies {
    building: Vec<String>,
    asts: Vec<ModuleAst>,
    next_id: usize,
}

/// The first library, from the `k`-th on, named `name`.
pub open spec fn library_named(libraries: Seq<(String, String)>, name: Seq<char>, k: int) -> Option<int>
    decreases libraries.len() - k,
{
    if k < 0 || k >= libraries.len() {
        None
    } else if libraries[k].0@ == name {
        Some(k)
    } else {
        library_named(libraries, name, k + 1)
    }
}

/// The index of the library named `name`.
fn library_index(libraries: &Vec<(String, String)>, name: &String) -> (r: Option<usize>)
    ensures
        library_named(libraries@, name@, 0) == (match r {
            Some(i) => Some(i as int),
            None => None::<int>,
        }),
        r matches Some(i) ==> i < libraries@.len() && libraries@[i as int].0@ == name@,
{
    let mut k: usize = 0;
    while k < libraries.len()
        invariant
            k <= libraries@.len(),
            library_named(libraries@, name@, 0) == library_named(libraries@, name@, k as int),
        decreases libraries@.len() - k,
    {
        if libraries[k].0 == *name {
            return Some(k);
        }
        k = k + 1;
    }
    None
}

/// The texts of a list of names.
pub open spec fn names_of(v: Seq<String>) -> Seq<Seq<char>> {
    v.map_values(|s: String| s@)
}

/// The position of the last `name` in `names`, or -1.
pub open spec fn last_position(names: Seq<Seq<char>>, name: Seq<char>) -> int
    decreases names.len(),
{
    if names.len() == 0 {
        -1
    } else if names.last() == name {
        names.len() - 1
    } else {
        last_position(names.drop_last(), name)
    }
}

proof fn lemma_last_position(names: Seq<Seq<char>>, name: Seq<char>)
    ensures
        -1 <= last_position(names, name) < names.len(),
        last_position(names, name) >= 0 ==> names[last_position(names, name)] == name,
        forall|k: int| last_position(names, name) < k < names.len() ==> names[k] != name,
        names.contains(name) <==> last_position(names, name) >= 0,
    decreases names.len(),
{
    if names.len() > 0 && names.last() != name {
        lemma_last_position(names.drop_last(), name);
        assert forall|k: int| last_position(names, name) < k < names.len() implies names[k] != name by {
            if k < names.len() - 1 {
                assert(names[k] == names.drop_last()[k]);
            }
        }
        if names.contains(name) {
            let k = choose|k: int| 0 <= k < names.len() && names[k] == name;
            assert(names.drop_last()[k] == name);
        }
        if last_position(names, name) >= 0 {
            assert(names[last_position(names, name)] == names.drop_last()[last_position(names, name)]);
        }
    } else if names.len() > 0 {
        assert(names[names.len() - 1] == name);
    }
}

/// The names, each after an arrow: ` -> a -> b`.
pub open spec fn chain_after(names: Seq<Seq<char>>) -> Seq<char>
    decreases names.len(),
{
    if names.len() == 0 {
        Seq::empty()
    } else {
        chain_after(names.drop_last()) + seq![' ', '-', '>', ' '] + names.last()
    }
}

/// The message for an import of `name` while it is being loaded: `name`, the
/// modules loaded after its last appearance in `building`, then `name` again,
/// joined with arrows: `a -> b -> a`.
pub open spec fn cycle_text(building: Seq<Seq<char>>, name: Seq<char>) -> Seq<char> {
    let j = last_position(building, name);
    name + chain_after(building.subrange(j + 1, building.len() as int)) + seq![' ', '-', '>', ' '] + name
}

proof fn lemma_module_named(tbl: Seq<(Seq<char>, Seq<DefinitionGroup>)>, name: Seq<char>, i: int)
    requires
        0 <= i,
    ensures
        module_named(tbl, name, i) matches Some(k) ==> i <= k < tbl.len() && tbl[k].0 == name,
        module_named(tbl, name, i) is None ==> forall|k: int| i <= k < tbl.len() ==> tbl[k].0 != name,
    decreases tbl.len() - i,
{
    if i < tbl.len() && tbl[i].0 != name {
        lemma_module_named(tbl, name, i + 1);
    }
}

proof fn lemma_library_named(libraries: Seq<(String, String)>, name: Seq<char>, k: int)
    requires
        0 <= k,
    ensures
        library_named(libraries, name, k) matches Some(i) ==> k <= i < libraries.len()
            && libraries[i].0@ == name,
    decreases libraries.len() - k,
{
    if k < libraries.len() && libraries[k].0@ != name {
        lemma_library_named(libraries, name, k + 1);
    }
}

/// Distinct library names being loaded, and one more library name not among
/// them, are no more than the libraries.
proof fn lemma_building_bound(building: Seq<Seq<char>>, libraries: Seq<(String, String)>, name: Seq<char>)
    requires
        building.no_duplicates(),
        forall|j: int| 0 <= j < building.len() ==> library_named(libraries, #[trigger] building[j], 0) is Some,
        !building.contains(name),
        library_named(libraries, name, 0) is Some,
    ensures
        building.len() < libraries.len(),
{
    broadcast use vstd::seq_lib::seq_to_set_is_finite;

    let b = building.push(name);
    let lib_names = libraries.map_values(|p: (String, String)| p.0@);
    assert(b.no_duplicates()) by {
        assert forall|i: int, j: int| 0 <= i < b.len() && 0 <= j < b.len() && i != j implies b[i] != b[j] by {
            if j == building.len() {
                assert(b[i] == building[i]);
            } else if i == building.len() {
                assert(b[j] == building[j]);
            } else {
                assert(b[i] == building[i] && b[j] == building[j]);
            }
        }
    }
    b.unique_seq_to_set();
    assert forall|x: Seq<char>| b.to_set().contains(x) implies lib_names.to_set().contains(x) by {
        let i = choose|i: int| 0 <= i < b.len() && b[i] == x;
        if i < building.len() {
            assert(b[i] == building[i]);
        }
        lemma_library_named(libraries, x, 0);
        let l = library_named(libraries, x, 0)->0;
        assert(lib_names[l] == x);
    }
    vstd::set_lib::lemma_len_subset(b.to_set(), lib_names.to_set());
    lib_names.lemma_cardinality_of_set();
}

/// The model of a loaded module: its name, its imports and its groups.
pub struct ModModel {
    pub name: Seq<char>,
    pub imports: Seq<(Seq<char>, SpanModel)>,
    pub groups: Seq<(Seq<char>, Seq<DefModel>)>,
}

/// The model of a module.
pub open spec fn mod_of(m: ModuleAst) -> ModModel {
    ModModel { name: m.name@, imports: imports_view(m.imports@), groups: groups_view(m.definitions@) }
}

/// The models of a list of modules.
pub open spec fn mods_model(asts: Seq<ModuleAst>) -> Seq<ModModel> {
    asts.map_values(|m: ModuleAst| mod_of(m))
}

/// The first module model, from the `k`-th on, named `name`.
pub open spec fn mod_index(mods: Seq<ModModel>, name: Seq<char>, k: int) -> Option<int>
    decreases mods.len() - k,
{
    if k < 0 || k >= mods.len() {
        None
    } else if mods[k].name == name {
        Some(k)
    } else {
        mod_index(mods, name, k + 1)
    }
}

/// Adds a loaded module, in place of an earlier one of the same name.
pub open spec fn insert_model(mods: Seq<ModModel>, m: ModModel) -> Seq<ModModel> {
    match mod_index(mods, m.name, 0) {
        Some(k) => mods.update(k, m),
        None => mods.push(m),
    }
}

/// Why loading an imported module fails: an import cycle (the module, the text of
/// the cycle, the import's span), a module that no library is named after, or a
/// library text that does not parse.
pub enum LoadFailure {
    Cycle { module: Seq<char>, chain: Seq<char>, span: SpanModel },
    Missing { module: Seq<char>, span: SpanModel },
    Unparsed { library: int },
}

/// Loading the module `name`, imported at `span`, while the modules `building`
/// are being loaded and `mods` are loaded, with definitions numbered from `next`:
/// the library of that name is parsed, the modules it imports are loaded in
/// order, and then it is added. The result is the loaded modules and the next
/// number, or the first failure.
pub open spec fn load_module(
    libs: Seq<(String, String)>,
    building: Seq<Seq<char>>,
    mods: Seq<ModModel>,
    next: usize,
    name: Seq<char>,
    span: SpanModel,
) -> Result<(Seq<ModModel>, usize), LoadFailure>
    decreases libs.len() - building.len(), 0int, 0int,
{
    if building.contains(name) {
        Err(LoadFailure::Cycle { module: name, chain: cycle_text(building, name), span })
    } else {
        match library_named(libs, name, 0) {
            None => Err(LoadFailure::Missing { module: name, span }),
            Some(l) => {
                if building.len() >= libs.len() || !text_fits(libs[l].1@) {
                    Err(LoadFailure::Unparsed { library: l })
                } else {
                    match module_s(libs[l].1@, (l + 1) as usize, next) {
                        None => Err(LoadFailure::Unparsed { library: l }),
                        Some((imps, ds, n)) => match load_imports(libs, building.push(name), mods, n, imps, 0) {
                            Err(f) => Err(f),
                            Ok((loaded, n2)) => Ok(
                                (insert_model(loaded, (ModModel { name, imports: imps, groups: groups_of(ds) })), n2),
                            ),
                        },
                    }
                }
            },
        }
    }
}

/// Loading the imports `imps`, from the `k`-th on, in order.
pub open spec fn load_imports(
    libs: Seq<(String, String)>,
    building: Seq<Seq<char>>,
    mods: Seq<ModModel>,
    next: usize,
    imps: Seq<(Seq<char>, SpanModel)>,
    k: int,
) -> Result<(Seq<ModModel>, usize), LoadFailure>
    decreases libs.len() - building.len(), 1int, imps.len() - k,
{
    if k < 0 || k >= imps.len() {
        Ok((mods, next))
    } else {
        match load_module(libs, building, mods, next, imps[k].0, imps[k].1) {
            Err(f) => Err(f),
            Ok((m2, n2)) => load_imports(libs, building, m2, n2, imps, k + 1),
        }
    }
}

/// The error `e` reports the failure `f`.
pub open spec fn failure_of(e: CompileError, f: LoadFailure) -> bool {
    match f {
        LoadFailure::Cycle { module, chain, span } => match e {
            CompileError::CircularImport { module: m, chain: c, span: s } => m@ == module && c@ == chain
                && s@ == span,
            _ => false,
        },
        LoadFailure::Missing { module, span } => match e {
            CompileError::ModuleNotFound { module: m, span: s } => m@ == module && s@ == span,
            _ => false,
        },
        LoadFailure::Unparsed { .. } => e is Parse,
    }
}

proof fn lemma_mod_index(asts: Seq<ModuleAst>, name: Seq<char>, k: int)
    requires
        0 <= k,
    ensures
        module_named(module_table(asts), name, k) == mod_index(mods_model(asts), name, k),
    decreases asts.len() - k,
{
    if k < asts.len() {
        assert(module_table(asts)[k].0 == mods_model(asts)[k].name);
        lemma_mod_index(asts, name, k + 1);
    }
}

/// Adding a module to a list adds its model to the models of the list.
proof fn lemma_insert_model(asts: Seq<ModuleAst>, x: ModuleAst)
    ensures
        mods_model(match module_named(module_table(asts), x.name@, 0) {
            Some(k) => asts.update(k, x),
            None => asts.push(x),
        }) == insert_model(mods_model(asts), mod_of(x)),
{
    lemma_mod_index(asts, x.name@, 0);
    lemma_module_named(module_table(asts), x.name@, 0);
    match module_named(module_table(asts), x.name@, 0) {
        Some(k) => {
            assert(mods_model(asts.update(k, x)) =~= mods_model(asts).update(k, mod_of(x)));
        },
        None => {
            assert(mods_model(asts.push(x)) =~= mods_model(asts).push(mod_of(x)));
        },
    }
}

/// `ms` are the loaded modules `expected`, with distinct names, and `r` is what
/// starting the compilation of `name` from them gives.
pub open spec fn compiled_from(
    ms: Seq<ModuleAst>,
    expected: Seq<ModModel>,
    name: Seq<char>,
    r: Result<Compilation, Vec<CompileError>>,
) -> bool {
    &&& mods_model(ms) == expected
    &&& distinct_names(ms)
    &&& start_result(ms, name, r)
}

impl Dependencies {
    /// `name` is being loaded.
    fn is_building(&self, name: &String) -> (r: bool)
        ensures
            r == names_of(self.building@).contains(name@),
    {
        let ghost names = names_of(self.building@);
        let mut k: usize = 0;
        while k < self.building.len()
            invariant
                k <= self.building@.len(),
                names == names_of(self.building@),
                forall|j: int| 0 <= j < k ==> names[j] != name@,
            decreases self.building@.len() - k,
        {
            if self.building[k] == *name {
                assert(names[k as int] == name@);
                return true;
            }
            k = k + 1;
        }
        false
    }

    /// The message for an import of `name` while it is being loaded: `name`, then
    /// the modules loaded after it, then `name` again. The modules from the last
    /// `name` on are no longer being loaded.
    fn cycle_message(&mut self, name: &String) -> (r: String)
        requires
            names_of(old(self).building@).contains(name@),
        ensures
            r@ == cycle_text(names_of(old(self).building@), name@),
            final(self).building@ == old(self).building@.subrange(
                0,
                last_position(names_of(old(self).building@), name@),
            ),
            final(self).asts == old(self).asts,
            final(self).next_id == old(self).next_id,
    {
        let ghost names = names_of(self.building@);
        let ghost total = names.len();
        let ghost j = last_position(names, name@);
        proof {
            lemma_last_position(names, name@);
        }
        let mut cycle: Vec<String> = Vec::new();
        loop
            invariant_except_break
                j < self.building@.len() <= total,
                self.building@ == old(self).building@.subrange(0, self.building@.len() as int),
                names_of(cycle@) == names.subrange(self.building@.len() as int, total as int).reverse(),
            invariant
                names == names_of(old(self).building@),
                total == names.len(),
                0 <= j < total,
                names[j] == name@,
                forall|k: int| j < k < total ==> names[k] != name@,
                self.asts == old(self).asts,
                self.next_id == old(self).next_id,
            ensures
                self.building@ == old(self).building@.subrange(0, j),
                names_of(cycle@) == names.subrange(j + 1, total as int).reverse(),
            decreases self.building@.len(),
        {
            let ghost len = self.building@.len();
            let m = self.building.pop().unwrap();
            proof {
                assert(m == old(self).building@[len - 1]);
                assert(names[len - 1] == m@);
                assert(self.building@ =~= old(self).building@.subrange(0, len - 1));
            }
            if m == *name {
                proof {
                    assert(len - 1 == j);
                    assert(names.subrange(len as int, total as int).reverse() =~= names.subrange(j + 1, total as int).reverse());
                }
                break;
            }
            let ghost before = names_of(cycle@);
            cycle.push(m);
            proof {
                assert(names_of(cycle@) =~= before.push(m@));
                assert(names.subrange(len - 1, total as int).reverse() =~= names.subrange(len as int, total as int).reverse().push(
                    names[len - 1],
                ));
            }
        }
        let ghost fwd = names.subrange(j + 1, total as int);
        let mut message = name.clone();
        let arrow = " -> ";
        proof {
            reveal_strlit(" -> ");
            assert(fwd.take(0) =~= Seq::<Seq<char>>::empty());
            assert(message@ =~= name@ + chain_after(fwd.take(0)));
        }
        let mut k = cycle.len();
        while k > 0
            invariant
                k <= cycle@.len(),
                cycle@.len() == fwd.len(),
                names_of(cycle@) == fwd.reverse(),
                arrow@ == seq![' ', '-', '>', ' '],
                message@ == name@ + chain_after(fwd.take(fwd.len() - k)),
            decreases k,
        {
            k = k - 1;
            let ghost t = fwd.len() - k;
            proof {
                assert(names_of(cycle@)[k as int] == fwd.reverse()[k as int]);
                assert(cycle@[k as int]@ == fwd[t - 1]);
                assert(fwd.take(t).drop_last() =~= fwd.take(t - 1));
                assert(fwd.take(t).last() == fwd[t - 1]);
            }
            message.append(arrow);
            message.append(cycle[k].as_str());
            proof {
                assert(message@ =~= name@ + chain_after(fwd.take(t)));
            }
        }
        message.append(arrow);
        message.append(name.as_str());
        proof {
            assert(fwd.take(fwd.len() as int) =~= fwd);
        }
        message
    }

    /// Adds a loaded module, replacing an earlier one of the same name.
    fn insert(&mut self, ast: ModuleAst)
        requires
            distinct_names(old(self).asts@),
            modules_shape_ok(old(self).asts@),
            groups_shape_ok(groups_view(ast.definitions@)),
        ensures
            distinct_names(final(self).asts@),
            modules_shape_ok(final(self).asts@),
            final(self).building == old(self).building,
            final(self).next_id == old(self).next_id,
            final(self).asts@ == match module_named(module_table(old(self).asts@), ast.name@, 0) {
                Some(k) => old(self).asts@.update(k, ast),
                None => old(self).asts@.push(ast),
            },
    {
        let ghost tbl = module_table(self.asts@);
        let mut k: usize = 0;
        while k < self.asts.len()
            invariant
                k <= self.asts@.len(),
                self.building == old(self).building,
                self.next_id == old(self).next_id,
                self.asts@ == old(self).asts@,
                distinct_names(old(self).asts@),
                modules_shape_ok(old(self).asts@),
                groups_shape_ok(groups_view(ast.definitions@)),
                tbl == module_table(old(self).asts@),
                module_named(tbl, ast.name@, 0) == module_named(tbl, ast.name@, k as int),
            decreases self.asts@.len() - k,
        {
            assert(tbl[k as int].0 == self.asts@[k as int].name@);
            if self.asts[k].name == ast.name {
                self.asts.remove(k);
                self.asts.insert(k, ast);
                assert(self.asts@ =~= old(self).asts@.update(k as int, ast));
                assert forall|a: int, b: int| 0 <= a < b < self.asts@.len() implies self.asts@[a].name@
                    != self.asts@[b].name@ by {
                    assert(self.asts@[a].name@ == old(self).asts@[a].name@);
                    assert(self.asts@[b].name@ == old(self).asts@[b].name@);
                }
                assert forall|i: int| 0 <= i < self.asts@.len() implies #[trigger] groups_shape_ok(
                    groups_view(self.asts@[i].definitions@),
                ) by {
                    if i != k {
                        assert(self.asts@[i] == old(self).asts@[i]);
                    }
                }
                return;
            }
            k = k + 1;
        }
        proof {
            lemma_module_named(tbl, ast.name@, 0);
        }
        let ghost before = self.asts@;
        self.asts.push(ast);
        proof {
            assert forall|a: int, b: int| 0 <= a < b < self.asts@.len() implies self.asts@[a].name@
                != self.asts@[b].name@ by {
                if b < before.len() {
                    assert(self.asts@[a] == before[a] && self.asts@[b] == before[b]);
                } else {
                    assert(tbl[a].0 == before[a].name@);
                }
            }
            assert forall|i: int| 0 <= i < self.asts@.len() implies #[trigger] groups_shape_ok(
                groups_view(self.asts@[i].definitions@),
            ) by {
                if i < before.len() {
                    assert(self.asts@[i] == before[i]);
                }
            }
        }
    }

    /// Loads the library module `module`, imported at `span`, and the modules it
    /// imports, in turn.
    fn resolve(&mut self, module: &String, span: Span, libraries: &Vec<(String, String)>) -> (r: Result<
        (),
        CompileError,
    >)
        requires
            distinct_names(old(self).asts@),
            modules_shape_ok(old(self).asts@),
            names_of(old(self).building@).no_duplicates(),
            forall|j: int|
                0 <= j < old(self).building@.len() ==> library_named(
                    libraries@,
                    #[trigger] names_of(old(self).building@)[j],
                    0,
                ) is Some,
        ensures
            distinct_names(final(self).asts@),
            modules_shape_ok(final(self).asts@),
            match load_module(
                libraries@,
                names_of(old(self).building@),
                mods_model(old(self).asts@),
                old(self).next_id,
                module@,
                span@,
            ) {
                Ok((mods, next)) => r is Ok && mods_model(final(self).asts@) == mods && final(self).next_id == next
                    && final(self).building@ == old(self).building@,
                Err(f) => r matches Err(e) && failure_of(e, f),
            },
        decreases libraries@.len() - old(self).building@.len(),
    {
        let ghost names = names_of(old(self).building@);
        let ghost m0 = mods_model(old(self).asts@);
        let ghost n0 = old(self).next_id;
        if self.is_building(module) {
            let chain = self.cycle_message(module);
            return Err(CompileError::CircularImport { module: module.clone(), chain, span });
        }
        let index = match library_index(libraries, module) {
            Some(i) => i,
            None => {
                return Err(CompileError::ModuleNotFound { module: module.clone(), span });
            },
        };
        proof {
            lemma_building_bound(names, libraries@, module@);
        }
        let count = libraries.len();
        assert(index < count);
        self.building.push(module.clone());
        proof {
            assert(names_of(self.building@) =~= names.push(module@));
        }
        let (ast, next) = match parse_module(
            module.as_str(),
            libraries[index].1.as_str(),
            index + 1,
            self.next_id,
        ) {
            Ok((m, n, _)) => (m, n),
            Err(e) => {
                return Err(CompileError::Parse(e));
            },
        };
        let ghost b1 = names.push(module@);
        let ghost imps = imports_view(ast.imports@);
        let ghost whole = load_imports(libraries@, b1, m0, next, imps, 0);
        let ghost model = ModModel { name: module@, imports: imps, groups: groups_view(ast.definitions@) };
        proof {
            assert(mod_of(ast) == model);
            assert(load_module(libraries@, names, m0, n0, module@, span@) == match whole {
                Err(f) => Err(f),
                Ok((loaded, n2)) => Ok((insert_model(loaded, model), n2)),
            });
        }
        self.next_id = next;
        let ghost pushed = self.building@;
        let mut k: usize = 0;
        while k < ast.imports.len()
            invariant
                k <= ast.imports@.len(),
                self.building@ == pushed,
                names_of(pushed) == b1,
                b1 == names.push(module@),
                names == names_of(old(self).building@),
                m0 == mods_model(old(self).asts@),
                n0 == old(self).next_id,
                old(self).building@.len() < libraries@.len(),
                !names.contains(module@),
                names.no_duplicates(),
                forall|j: int|
                    0 <= j < old(self).building@.len() ==> library_named(
                        libraries@,
                        #[trigger] names_of(old(self).building@)[j],
                        0,
                    ) is Some,
                library_named(libraries@, module@, 0) is Some,
                imps == imports_view(ast.imports@),
                distinct_names(self.asts@),
                modules_shape_ok(self.asts@),
                groups_shape_ok(groups_view(ast.definitions@)),
                whole == load_imports(libraries@, b1, mods_model(self.asts@), self.next_id, imps, k as int),
                model == (ModModel { name: module@, imports: imps, groups: groups_view(ast.definitions@) }),
                load_module(libraries@, names, m0, n0, module@, span@) == match whole {
                    Err(f) => Err(f),
                    Ok((loaded, n2)) => Ok((insert_model(loaded, model), n2)),
                },
            decreases ast.imports@.len() - k,
        {
            proof {
                assert(b1.no_duplicates()) by {
                    assert forall|a: int, b: int| 0 <= a < b1.len() && 0 <= b < b1.len() && a != b implies b1[a]
                        != b1[b] by {
                        if a < names.len() && b < names.len() {
                        } else if a < names.len() {
                            assert(b1[a] == names[a]);
                        } else {
                            assert(b1[b] == names[b]);
                        }
                    }
                }
                assert forall|j: int| 0 <= j < pushed.len() implies library_named(
                    libraries@,
                    #[trigger] names_of(pushed)[j],
                    0,
                ) is Some by {
                    if j < old(self).building@.len() {
                        assert(names_of(pushed)[j] == names[j]);
                    }
                }
                assert(imps[k as int] == (ast.imports@[k as int].0@, ast.imports@[k as int].1@));
            }
            let ghost cur = mods_model(self.asts@);
            let ghost cur_next = self.next_id;
            let result = self.resolve(&ast.imports[k].0, ast.imports[k].1, libraries);
            match result {
                Ok(()) => {},
                Err(e) => {
                    proof {
                        let f = load_module(libraries@, b1, cur, cur_next, imps[k as int].0, imps[k as int].1)->Err_0;
                        assert(load_imports(libraries@, b1, cur, cur_next, imps, k as int) == Err::<
                            (Seq<ModModel>, usize),
                            LoadFailure,
                        >(f));
                        assert(whole == Err::<(Seq<ModModel>, usize), LoadFailure>(f));
                        assert(load_module(libraries@, names, m0, n0, module@, span@) == Err::<
                            (Seq<ModModel>, usize),
                            LoadFailure,
                        >(f));
                        assert(failure_of(e, f));
                    }
                    return Err(e);
                },
            }
            k = k + 1;
        }
        let ghost before = self.asts@;
        proof {
            lemma_insert_model(before, ast);
            assert(whole == Ok::<(Seq<ModModel>, usize), LoadFailure>((mods_model(before), self.next_id)));
        }
        self.insert(ast);
        self.building.pop();
        proof {
            assert(self.building@ =~= old(self).building@);
        }
        Ok(())
    }
}

/// A compilation in progress: the analysed modules, and the generator of the code
/// of `main`.
pub struct Compilation {
    pub modules: Vec<ModuleAst>,
    pub generator: Generator,
}

/// The definitions of `name` among group models: those of the first group of that name.
pub open spec fn view_group(gs: Seq<(Seq<char>, Seq<DefModel>)>, name: Seq<char>) -> Option<Seq<DefModel>>
    decreases gs.len(),
{
    if gs.len() == 0 {
        None
    } else if gs[0].0 == name {
        Some(gs[0].1)
    } else {
        view_group(gs.drop_first(), name)
    }
}

proof fn lemma_view_group(g: Seq<DefinitionGroup>, name: Seq<char>)
    ensures
        view_group(groups_view(g), name) == (match group_defs(g, name) {
            Some(ds) => Some(defs_view(ds)),
            None => None::<Seq<DefModel>>,
        }),
    decreases g.len(),
{
    if g.len() > 0 {
        assert(groups_view(g).drop_first() =~= groups_view(g.drop_first()));
        lemma_view_group(g.drop_first(), name);
    }
}

/// Two module lists with the same names, position by position, find the same module by name.
proof fn lemma_module_named_same_names(a: Seq<ModuleAst>, b: Seq<ModuleAst>, name: Seq<char>, k: int)
    requires
        0 <= k,
        a.len() == b.len(),
        forall|i: int| 0 <= i < a.len() ==> (#[trigger] a[i]).name@ == b[i].name@,
    ensures
        module_named(module_table(a), name, k) == module_named(module_table(b), name, k),
    decreases a.len() - k,
{
    if k < a.len() {
        assert(module_table(a)[k].0 == module_table(b)[k].0);
        lemma_module_named_same_names(a, b, name, k + 1);
    }
}

/// The analysis of every module succeeds: no definition is written twice and every
/// call is in scope.
pub open spec fn semantics_ok(ms: Seq<ModuleAst>) -> bool {
    forall|i: int|
        0 <= i < ms.len() ==> no_duplicate_groups(#[trigger] ms[i].definitions@) && qualified_module(
            module_table(ms),
            imports_view(ms[i].imports@),
            i,
            groups_view(ms[i].definitions@),
        ) is Some
}

/// `out` is the analysis of `ms`: the same modules, with every call qualified.
pub open spec fn analysed(ms: Seq<ModuleAst>, out: Seq<ModuleAst>) -> bool {
    &&& out.len() == ms.len()
    &&& forall|i: int|
        0 <= i < out.len() ==> {
            &&& (#[trigger] out[i]).name@ == ms[i].name@
            &&& imports_view(out[i].imports@) == imports_view(ms[i].imports@)
            &&& Some(groups_view(out[i].definitions@)) == qualified_module(
                module_table(ms),
                imports_view(ms[i].imports@),
                i,
                groups_view(ms[i].definitions@),
            )
        }
}

/// The definitions of `main` in the module `name` of `ms`, once analysed.
pub open spec fn main_defs(ms: Seq<ModuleAst>, name: Seq<char>) -> Option<Seq<DefModel>> {
    match module_named(module_table(ms), name, 0) {
        Some(i) => view_group(
            qualified_module(
                module_table(ms),
                imports_view(ms[i].imports@),
                i,
                groups_view(ms[i].definitions@),
            )->0,
            seq!['m', 'a', 'i', 'n'],
        ),
        None => None,
    }
}

/// What starting the compilation of the module `name` of the loaded modules `ms`
/// gives: the semantic errors; else a missing `main`, a `main` written more than
/// once, or one with a stack pattern; else a compilation of the analysed modules
/// whose generator starts at `main`.
pub open spec fn start_result(ms: Seq<ModuleAst>, name: Seq<char>, r: Result<Compilation, Vec<CompileError>>) -> bool {
    if !semantics_ok(ms) {
        match r {
            Err(es) => es@.len() == semantic_errors(ms).len() && semantic_errors(ms).len() > 0 && forall|k: int|
                0 <= k < es@.len() ==> (#[trigger] es@[k] matches CompileError::Semantic(e) && e@
                    == semantic_errors(ms)[k]),
            Ok(_) => false,
        }
    } else {
        match main_defs(ms, name) {
            Some(ds) => if ds.len() == 0 {
                main_missing(name, r)
            } else if ds.len() > 1 {
                match only_error(r) {
                    Some(CompileError::MainHasMatches(sp)) => sp@ == ds[1].span,
                    _ => false,
                }
            } else if ds[0].stack is Some {
                match only_error(r) {
                    Some(CompileError::Gen(GenError::MainHasPattern(sp))) => sp@ == ds[0].span,
                    _ => false,
                }
            } else {
                match r {
                    Ok(c) => started(ms, name, ds[0], c),
                    Err(_) => false,
                }
            },
            None => main_missing(name, r),
        }
    }
}

/// The single error of `r`, if it failed with exactly one.
pub open spec fn only_error(r: Result<Compilation, Vec<CompileError>>) -> Option<CompileError> {
    match r {
        Err(es) => if es@.len() == 1 {
            Some(es@[0])
        } else {
            None
        },
        Ok(_) => None,
    }
}

/// `r` failed with the one error that the module `name` has no `main`.
pub open spec fn main_missing(name: Seq<char>, r: Result<Compilation, Vec<CompileError>>) -> bool {
    match only_error(r) {
        Some(CompileError::MainNotFound { module: m }) => m@ == name,
        _ => false,
    }
}

/// `c` holds the analysis of `ms`, and its generator starts at the one definition
/// of `main` of the module `name`, whose model is `main`.
pub open spec fn started(ms: Seq<ModuleAst>, name: Seq<char>, main: DefModel, c: Compilation) -> bool {
    &&& analysed(ms, c.modules@)
    &&& c.generator.running()
    &&& match module_named(module_table(c.modules@), name, 0) {
        Some(i) => match group_defs(c.modules@[i].definitions@, seq!['m', 'a', 'i', 'n']) {
            Some(dd) => dd.len() == 1 && dd[0]@ == main && c.generator@ == initial_model(dd[0]),
            None => false,
        },
        None => false,
    }
}

/// Analyses the loaded modules and starts generating the code of `main` of the
/// module `name`.
fn start_compilation(name: &str, modules: Vec<ModuleAst>) -> (r: Result<Compilation, Vec<CompileError>>)
    requires
        distinct_names(modules@),
        modules_shape_ok(modules@),
    ensures
        start_result(modules@, name@, r),
        r matches Ok(c) ==> distinct_names(c.modules@) && program_calls_found(c.modules@),
        r matches Ok(c) ==> modules_shape_ok(c.modules@),
        r matches Ok(c) ==> gen_found(c.modules@, c.generator@),
{
    let ghost ms = modules@;
    let mut errors: Vec<CompileError> = Vec::new();
    let modules = match apply_semantics(modules) {
        Ok(m) => m,
        Err(es) => {
            let ghost all = es@;
            let mut es = es;
            while es.len() > 0
                invariant
                    errors@.len() + es@.len() == all.len(),
                    es@ == all.subrange(errors@.len() as int, all.len() as int),
                    forall|j: int|
                        0 <= j < errors@.len() ==> (#[trigger] errors@[j] matches CompileError::Semantic(e)
                            && e == all[j]),
                decreases es@.len(),
            {
                let e = es.remove(0);
                errors.push(CompileError::Semantic(e));
                proof {
                    assert(es@ =~= all.subrange(errors@.len() as int, all.len() as int));
                }
            }
            proof {
                assert forall|j: int| 0 <= j < errors@.len() implies (#[trigger] errors@[j] matches CompileError::Semantic(e)
                    && e@ == semantic_errors(ms)[j]) by {
                    assert(errs_view(all)[j] == all[j]@);
                }
            }
            return Err(errors);
        },
    };
    // Try to get the main function
    let ghost tbl = module_table(modules@);
    proof {
        lemma_module_named_same_names(modules@, ms, name@, 0);
    }
    let main_name = String::from_str(name);
    let mut index: Option<usize> = None;
    let mut k: usize = 0;
    while k < modules.len()
        invariant
            k <= modules@.len(),
            tbl == module_table(modules@),
            main_name@ == name@,
            index matches Some(i) ==> i < modules@.len() && module_named(tbl, name@, 0) == Some(i as int),
            index is None ==> module_named(tbl, name@, 0) == module_named(tbl, name@, k as int),
        decreases modules@.len() - k,
    {
        assert(tbl[k as int].0 == modules@[k as int].name@);
        if index.is_none() && modules[k].name == main_name {
            index = Some(k);
        }
        k = k + 1;
    }
    let main_key = String::from_str("main");
    proof {
        reveal_strlit("main");
        assert(main_key@ =~= seq!['m', 'a', 'i', 'n']);
    }
    let mains = match index {
        Some(i) => find_group(&modules[i].definitions, &main_key),
        None => None,
    };
    proof {
        if let Some(i) = index {
            lemma_view_group(modules@[i as int].definitions@, main_key@);
        }
    }
    let generator = match mains {
        None => {
            errors.push(CompileError::MainNotFound { module: main_name });
            return Err(errors);
        },
        Some(defs) => {
            // There can be only one main
            if defs.len() > 1 {
                errors.push(CompileError::MainHasMatches(defs[1].span));
                return Err(errors);
            }
            if defs.len() == 0 {
                errors.push(CompileError::MainNotFound { module: main_name });
                return Err(errors);
            }
            match Generator::new(&defs[0]) {
                Ok(g) => {
                    proof {
                        lemma_group_def_found(modules@, index->0 as int, main_key@, 0);
                        lemma_initial_found(modules@, defs@[0]);
                    }
                    g
                },
                Err(e) => {
                    errors.push(CompileError::Gen(e));
                    return Err(errors);
                },
            }
        },
    };
    Ok(Compilation { modules, generator })
}

/// Starts compiling the module `name` from `input`. The modules it imports are
/// looked up among `libraries` (pairs of a module name and its text), and so are
/// the ones they import. The result is a [`Compilation`] whose generator the caller
/// runs: see [`Compilation::step`].
pub fn compile(name: &str, input: &str, config: &Config, libraries: &Vec<(String, String)>) -> (r: Result<
    Compilation,
    Vec<CompileError>,
>)
    ensures
        r matches Err(es) ==> es@.len() >= 1,
        !(text_fits(input@) && module_s(input@, 0, 0) is Some) ==> (r matches Err(es) && es@.len() == 1
            && es@[0] is Parse),
        r matches Ok(c) ==> c.generator.running(),
        r matches Ok(c) ==> distinct_names(c.modules@) && program_calls_found(c.modules@),
        r matches Ok(c) ==> modules_shape_ok(c.modules@),
        r matches Ok(c) ==> gen_found(c.modules@, c.generator@),
        r matches Ok(c) ==> (module_named(module_table(c.modules@), name@, 0) matches Some(i) && group_defs(
            c.modules@[i].definitions@,
            seq!['m', 'a', 'i', 'n'],
        ) matches Some(ds) && ds.len() == 1 && c.generator@ == initial_model(ds[0])),
        text_fits(input@) ==> match module_s(input@, 0, 0) {
            Some((imps, ds, n)) => match load_imports(libraries@, Seq::empty(), Seq::empty(), n, imps, 0) {
                Err(f) => r matches Err(es) && es@.len() == 1 && failure_of(es@[0], f),
                Ok((mods, _)) => exists|ms: Seq<ModuleAst>|
                    #[trigger] compiled_from(
                        ms,
                        insert_model(mods, (ModModel { name: name@, imports: imps, groups: groups_of(ds) })),
                        name@,
                        r,
                    ),
            },
            None => true,
        },
{
    let mut errors: Vec<CompileError> = Vec::new();
    let (this, next_id) = match parse_module(name, input, 0, 0) {
        Ok((m, n, _)) => (m, n),
        Err(e) => {
            errors.push(CompileError::Parse(e));
            return Err(errors);
        },
    };
    let mut deps = Dependencies { building: Vec::new(), asts: Vec::new(), next_id };
    let ghost imps = imports_view(this.imports@);
    let ghost whole = load_imports(libraries@, Seq::empty(), Seq::empty(), next_id, imps, 0);
    proof {
        assert(mods_model(deps.asts@) =~= Seq::<ModModel>::empty());
    }
    let mut k: usize = 0;
    while k < this.imports.len()
        invariant
            k <= this.imports@.len(),
            errors@.len() == 0,
            text_fits(input@),
            this.name@ == name@,
            module_s(input@, 0, 0) matches Some((i, ds, n)) && i == imps && imports_view(this.imports@) == imps
                && groups_view(this.definitions@) == groups_of(ds) && n == next_id,
            whole == load_imports(libraries@, Seq::empty(), Seq::empty(), next_id, imps, 0),
            whole == load_imports(libraries@, Seq::empty(), mods_model(deps.asts@), deps.next_id, imps, k as int),
            distinct_names(deps.asts@),
            modules_shape_ok(deps.asts@),
            groups_shape_ok(groups_view(this.definitions@)),
        decreases this.imports@.len() - k,
    {
        deps.building = Vec::new();
        proof {
            assert(names_of(deps.building@) =~= Seq::<Seq<char>>::empty());
            assert(imps[k as int] == (this.imports@[k as int].0@, this.imports@[k as int].1@));
        }
        let ghost cur = mods_model(deps.asts@);
        let ghost cur_next = deps.next_id;
        match deps.resolve(&this.imports[k].0, this.imports[k].1, libraries) {
            Ok(()) => {},
            Err(e) => {
                proof {
                    let f = load_module(
                        libraries@,
                        Seq::empty(),
                        cur,
                        cur_next,
                        imps[k as int].0,
                        imps[k as int].1,
                    )->Err_0;
                    assert(whole == Err::<(Seq<ModModel>, usize), LoadFailure>(f));
                }
                errors.push(e);
                return Err(errors);
            },
        }
        k = k + 1;
    }
    let ghost before = deps.asts@;
    let ghost main_model = mod_of(this);
    proof {
        lemma_insert_model(before, this);
        assert(main_model == (ModModel { name: name@, imports: imps, groups: groups_view(this.definitions@) }));
    }
    deps.insert(this);
    let ghost ms = deps.asts@;
    let r = start_compilation(name, deps.asts);
    proof {
        assert(whole == Ok::<(Seq<ModModel>, usize), LoadFailure>((mods_model(before), deps.next_id)));
        let (i2, ds2, n2) = module_s(input@, 0, 0)->0;
        assert(main_model == (ModModel { name: name@, imports: i2, groups: groups_of(ds2) }));
        assert(load_imports(libraries@, Seq::empty(), Seq::empty(), n2, i2, 0) == Ok::<
            (Seq<ModModel>, usize),
            LoadFailure,
        >((mods_model(before), deps.next_id)));
        let res = load_imports(libraries@, Seq::empty(), Seq::empty(), n2, i2, 0);
        let mods2 = res->Ok_0.0;
        assert(mods2 == mods_model(before));
        assert(compiled_from(
            ms,
            insert_model(mods2, (ModModel { name: name@, imports: i2, groups: groups_of(ds2) })),
            name@,
            r,
        ));
    }
    r
}

impl Compilation {
    /// Does the next piece of code generation. See [`Generator::step`].
    pub fn step(&mut self) -> (r: Step)
        requires
            old(self).generator.running(),
        ensures
            final(self).modules == old(self).modules,
            (final(self).generator@, step_view(r)) == step_s(old(self).generator@, old(self).modules@),
            r is Continue ==> final(self).generator.running(),
            r is Execute ==> final(self).generator.waiting(),
            program_calls_found(old(self).modules@) && modules_shape_ok(old(self).modules@) && gen_found(
                old(self).modules@,
                old(self).generator@,
            ) ==> gen_found(final(self).modules@, final(self).generator@) && !(r matches Step::Failed(
                GenError::UnknownFunction(_, _, _),
            )),
            builds_tracked(old(self).generator@) && (r is Continue || r is Execute) ==> builds_tracked(
                final(self).generator@,
            ),
            builds_tracked(old(self).generator@) && r is Done ==> final(self).generator@.builds.len() == 0,
    {
        proof {
            self.generator.lemma_frames_shape();
            if builds_tracked(self.generator@) {
                lemma_step_tracked(self.generator@, self.modules@);
            }
            if program_calls_found(self.modules@) && modules_shape_ok(self.modules@) && gen_found(
                self.modules@,
                self.generator@,
            ) {
                lemma_step_found(self.generator@, self.modules@);
            }
        }
        self.generator.step(self.modules.as_slice())
    }

    /// Hands back what the program asked for by the last step printed. See
    /// [`Generator::resume`].
    pub fn resume(&mut self, output: Result<Vec<u8>, ExecutionError>) -> (r: Option<GenError>)
        requires
            old(self).generator.waiting(),
        ensures
            final(self).modules == old(self).modules,
            r is None ==> final(self).generator.running(),
            r is None <==> output is Ok,
            output matches Ok(bytes) ==> final(self).generator@ == resume_s(old(self).generator@, bytes@),
            output matches Err(e) ==> final(self).generator@ == old(self).generator@,
            output matches Err(e) ==> (r matches Some(GenError::ExecutionFailed(x, _)) && x == e),
            gen_found(old(self).modules@, old(self).generator@) ==> gen_found(final(self).modules@, final(self).generator@),
            builds_tracked(old(self).generator@) ==> builds_tracked(final(self).generator@),
    {
        proof {
            self.generator.lemma_frames_shape();
            if output is Ok && builds_tracked(self.generator@) {
                lemma_resume_tracked(self.generator@, output->Ok_0@);
            }
            if output is Ok && gen_found(self.modules@, self.generator@) {
                lemma_resume_found(self.generator@, self.modules@, output->Ok_0@);
            }
        }
        self.generator.resume(output)
    }
}

/// The code without its first `>` and its last `<` when it starts with one and
/// ends with the other: the optimizer does not need the move to the first cell
/// and back.
pub fn strip_outer_moves(bf: &str) -> (r: &str)
    ensures
        r@ == (if bf@.len() >= 2 && bf@[0] == '>' && bf@[bf@.len() - 1] == '<' {
            bf@.subrange(1, bf@.len() - 1)
        } else {
            bf@
        }),
{
    let n = bf.unicode_len();
    if n >= 2 && bf.get_char(0) == '>' && bf.get_char(n - 1) == '<' {
        bf.substring_char(1, n - 1)
    } else {
        bf
    }
}

} // verus!
