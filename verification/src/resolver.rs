//! Dependency resolution: load order, cycle detection and the dependency tree
//! of a module.

use vstd::prelude::*;
use crate::catalog::{Catalog, Groups, has_group, group_of, has_latest, latest_module, catalog_wf};
use crate::error::CatalogError;
use crate::graph::{Edges, is_path, reaches, reaches_cycle, lemma_path_single, lemma_path_push,
    lemma_reaches_step, lemma_closed_holds_reachable, lemma_safe_from_successors,
    lemma_cycle_on_path, lemma_path_reaches};
use crate::module::{TechModule, dep_name, dep_requirement, strings_view};
use crate::selection::satisfies;
use crate::text::str_eq;
use crate::version::version_text;

verus! {

/// The module names that the latest version of `name` depends on.
pub open spec fn latest_deps(g: Groups, name: Seq<char>) -> Seq<Seq<char>> {
    latest_module(g, name)@.dependencies.map_values(|d: Seq<char>| dep_name(d))
}

/// The module names that the first registered version of `name` depends on.
pub open spec fn first_deps(g: Groups, name: Seq<char>) -> Seq<Seq<char>> {
    group_of(g, name)[0]@.dependencies.map_values(|d: Seq<char>| dep_name(d))
}

/// The load graph: `a` has a latest version, and it depends on `b`.
pub open spec fn load_edge(g: Groups) -> Edges {
    |a: Seq<char>, b: Seq<char>| has_latest(g, a) && latest_deps(g, a).contains(b)
}

/// The graph that cycle detection walks: the first registered version of
/// `a` depends on `b`, and `b` is a registered name.
pub open spec fn cycle_edge(g: Groups) -> Edges {
    |a: Seq<char>, b: Seq<char>| group_of(g, a).len() > 0 && first_deps(g, a).contains(b) && has_group(g, b)
}

/// The graph of the dependency tree: load edges to registered names.
pub open spec fn tree_edge(g: Groups) -> Edges {
    |a: Seq<char>, b: Seq<char>| has_latest(g, a) && latest_deps(g, a).contains(b) && has_group(g, b)
}

/// Every name of `o` has a latest version, and every name that version depends
/// on comes earlier in `o`.
pub open spec fn deps_come_first(g: Groups, o: Seq<Seq<char>>) -> bool {
    forall|i: int|
        0 <= i < o.len() ==> has_latest(g, #[trigger] o[i]) && forall|d: Seq<char>|
            #[trigger] latest_deps(g, o[i]).contains(d) ==> exists|k: int| 0 <= k < i && o[k] == d
}

/// The requirement that a dependency string carries, if any, is met by some
/// registered version of the module it names. (A name without any registered
/// version is not a conflict: it is a missing module.)
pub open spec fn requirement_met(g: Groups, dep: Seq<char>) -> bool {
    match dep_requirement(dep) {
        Some(q) => has_latest(g, dep_name(dep)) ==> exists|j: int|
            0 <= j < group_of(g, dep_name(dep)).len() && satisfies(q)(
                #[trigger] group_of(g, dep_name(dep))[j],
            ),
        None => true,
    }
}

/// Every requirement among the dependencies of the latest version of `name` is met.
pub open spec fn requirements_met(g: Groups, name: Seq<char>) -> bool {
    forall|t: int|
        0 <= t < latest_module(g, name)@.dependencies.len() ==> requirement_met(
            g,
            #[trigger] latest_module(g, name)@.dependencies[t],
        )
}

/// `o` is a load order for `root`: each module reachable from `root` exactly
/// once, every module after the modules it depends on, every version
/// requirement of their dependencies met, `root` last.
pub open spec fn is_load_order(g: Groups, root: Seq<char>, o: Seq<Seq<char>>) -> bool {
    &&& o.no_duplicates()
    &&& o.len() > 0
    &&& o.last() == root
    &&& forall|x: Seq<char>| o.contains(x) <==> reaches(load_edge(g), root, x)
    &&& deps_come_first(g, o)
    &&& forall|i: int| 0 <= i < o.len() ==> requirements_met(g, #[trigger] o[i])
}

/// A list of distinct registered names is no longer than the catalog.
pub proof fn lemma_registered_bound(g: Groups, s: Seq<Seq<char>>)
    requires
        s.no_duplicates(),
        forall|i: int| 0 <= i < s.len() ==> has_group(g, #[trigger] s[i]),
    ensures
        s.len() <= g.len(),
{
    broadcast use vstd::seq_lib::seq_to_set_is_finite;

    let names = g.map_values(|p: (Seq<char>, Seq<TechModule>)| p.0);
    s.unique_seq_to_set();
    names.lemma_cardinality_of_set();
    assert forall|x: Seq<char>| s.to_set().contains(x) implies names.to_set().contains(x) by {
        let i = choose|i: int| 0 <= i < s.len() && s[i] == x;
        assert(has_group(g, s[i]));
        let k = choose|k: int| 0 <= k < g.len() && g[k].0 == x;
        assert(names[k] == x);
    }
    vstd::set_lib::lemma_len_subset(s.to_set(), names.to_set());
}

/// Whether `name` is among the strings of `v`.
fn has_string(v: &Vec<String>, name: &str) -> (r: bool)
    ensures
        r == strings_view(v@).contains(name@),
{
    let mut i: usize = 0;
    while i < v.len()
        invariant
            i <= v@.len(),
            forall|k: int| 0 <= k < i ==> v@[k]@ != name@,
        decreases v.len() - i,
    {
        if str_eq(v[i].as_str(), name) {
            assert(strings_view(v@)[i as int] == name@);
            return true;
        }
        i = i + 1;
    }
    assert forall|k: int| 0 <= k < strings_view(v@).len() implies strings_view(v@)[k] != name@ by {
        assert(strings_view(v@)[k] == v@[k]@);
    }
    false
}

/// Checks the requirement of one dependency string: `None` where it is met,
/// and otherwise the version conflict naming the module, the requirement and
/// the latest registered version of that module.
fn requirement_conflict(catalog: &Catalog, dep: &str) -> (r: Option<CatalogError>)
    requires
        catalog_wf(catalog@),
    ensures
        r is None <==> requirement_met(catalog@, dep@),
        r matches Some(e) ==> {
            &&& e matches CatalogError::VersionConflict { module, required, available }
            &&& module@ == dep_name(dep@)
            &&& dep_requirement(dep@) == Some(required@)
            &&& available@ == version_text(latest_module(catalog@, dep_name(dep@)).version)
            &&& has_latest(catalog@, dep_name(dep@))
        },
{
    let (dn, q) = TechModule::parse_dep(dep);
    let q = match q {
        None => {
            return None;
        },
        Some(q) => q,
    };
    let vs = match catalog.versions_of(dn.as_str()) {
        None => {
            return None;
        },
        Some(vs) => vs,
    };
    if vs.len() == 0 {
        return None;
    }
    let ghost g = catalog@;
    proof {
        let i = choose|i: int| 0 <= i < g.len() && g[i].0 == dn@;
        crate::catalog::lemma_group_index(g, dn@, i);
        assert(crate::sort::versions_wf(g[i].1));
    }
    let mut j: usize = 0;
    while j < vs.len()
        invariant
            g == catalog@,
            j <= vs@.len(),
            vs@ == group_of(g, dn@),
            crate::sort::versions_wf(vs@),
            dep_requirement(dep@) == Some(q@),
            dn@ == dep_name(dep@),
            has_latest(g, dn@),
            forall|t: int| 0 <= t < j ==> !satisfies(q@)(#[trigger] vs@[t]),
        decreases vs.len() - j,
    {
        if q.matches(&vs[j].version) {
            proof {
                assert(satisfies(q@)(group_of(g, dn@)[j as int]));
            }
            return None;
        }
        j = j + 1;
    }
    let latest = match catalog.get_latest(dn.as_str()) {
        Ok(m) => m,
        Err(_) => {
            return None;
        },
    };
    let available = latest.version.to_string();
    let required = String::from_str(q.as_str());
    Some(CatalogError::VersionConflict { module: dn, required, available })
}

/// The dependency names of a module, in order.
fn dependency_names(m: &TechModule) -> (r: Vec<String>)
    ensures
        strings_view(r@) == m@.dependencies.map_values(|d: Seq<char>| dep_name(d)),
{
    let mut out: Vec<String> = Vec::new();
    let mut k: usize = 0;
    while k < m.dependencies.len()
        invariant
            k <= m.dependencies@.len(),
            strings_view(out@) == m@.dependencies.take(k as int).map_values(|d: Seq<char>| dep_name(d)),
        decreases m.dependencies.len() - k,
    {
        let (dn, _) = TechModule::parse_dep(m.dependencies[k].as_str());
        let ghost before = out@;
        out.push(dn);
        proof {
            assert(m@.dependencies[k as int] == m.dependencies@[k as int]@);
            let a = strings_view(out@);
            let b = m@.dependencies.take(k + 1).map_values(|d: Seq<char>| dep_name(d));
            let c = m@.dependencies.take(k as int).map_values(|d: Seq<char>| dep_name(d));
            assert(m@.dependencies.len() == m.dependencies@.len());
            assert(c.len() == k);
            assert(strings_view(before).len() == k);
            assert(a.len() == b.len());
            assert forall|t: int| 0 <= t < a.len() implies a[t] == b[t] by {
                if t < k {
                    assert(a[t] == strings_view(before)[t]);
                    assert(c[t] == b[t]);
                }
            }
            assert(a =~= b);
        }
        k = k + 1;
    }
    assert(m@.dependencies.take(k as int) =~= m@.dependencies);
    out
}

/// The unit that gathers dependency resolution.
pub struct DependencyResolver;

/// One step of the cycle search from `name`, with `visiting` the names on the
/// current path from `root` and `visited` names known to reach no cycle.
fn dfs_cycle(
    name: &str,
    catalog: &Catalog,
    visiting: &mut Vec<String>,
    visited: &mut Vec<String>,
    Ghost(root): Ghost<Seq<char>>,
) -> (r: bool)
    requires
        catalog_wf(catalog@),
        strings_view(old(visiting)@).len() == 0 ==> name@ == root,
        strings_view(old(visiting)@).len() > 0 ==> {
            &&& is_path(cycle_edge(catalog@), strings_view(old(visiting)@))
            &&& strings_view(old(visiting)@)[0] == root
            &&& cycle_edge(catalog@)(strings_view(old(visiting)@).last(), name@)
        },
        strings_view(old(visiting)@).no_duplicates(),
        forall|i: int|
            0 <= i < strings_view(old(visiting)@).len() ==> has_group(
                catalog@,
                #[trigger] strings_view(old(visiting)@)[i],
            ),
        forall|x: Seq<char>|
            strings_view(old(visited)@).contains(x) ==> !reaches_cycle(cycle_edge(catalog@), x),
    ensures
        r ==> reaches_cycle(cycle_edge(catalog@), root),
        !r ==> {
            &&& !reaches_cycle(cycle_edge(catalog@), name@)
            &&& strings_view(final(visiting)@) == strings_view(old(visiting)@)
            &&& forall|x: Seq<char>|
                strings_view(final(visited)@).contains(x) ==> !reaches_cycle(cycle_edge(catalog@), x)
        },
    decreases catalog@.len() - old(visiting)@.len(),
{
    let ghost g = catalog@;
    let ghost e = cycle_edge(g);
    let ghost v0 = strings_view(visiting@);
    if has_string(visited, name) {
        return false;
    }
    if has_string(visiting, name) {
        proof {
            let i = choose|i: int| 0 <= i < v0.len() && v0[i] == name@;
            lemma_cycle_on_path(e, v0, i, name@);
        }
        return true;
    }
    proof {
        lemma_registered_bound(g, v0);
    }
    visiting.push(String::from_str(name));
    let ghost v1 = strings_view(visiting@);
    proof {
        assert(v1 =~= v0.push(name@));
    }
    match catalog.versions_of(name) {
        None => {},
        Some(vs) => {
            if vs.len() > 0 {
                let m = &vs[0];
                let deps = dependency_names(m);
                proof {
                    assert(strings_view(deps@) == first_deps(g, name@));
                    if v0.len() > 0 {
                        lemma_path_push(e, v0, name@);
                    } else {
                        lemma_path_single(e, name@);
                    }
                    assert(v1.no_duplicates());
                    assert forall|i: int| 0 <= i < v1.len() implies has_group(g, #[trigger] v1[i]) by {
                        if i < v0.len() {
                            assert(v1[i] == v0[i]);
                        }
                    }
                    lemma_registered_bound(g, v1);
                }
                let mut k: usize = 0;
                while k < deps.len()
                    invariant
                        g == catalog@,
                        e == cycle_edge(g),
                        catalog_wf(g),
                        k <= deps@.len(),
                        strings_view(deps@) == first_deps(g, name@),
                        group_of(g, name@).len() > 0,
                        has_group(g, name@),
                        strings_view(visiting@) == v1,
                        visiting@.len() == v1.len(),
                        old(visiting)@.len() == v0.len(),
                        v1 == v0.push(name@),
                        is_path(e, v1),
                        v1[0] == root,
                        v1.no_duplicates(),
                        v0.len() < g.len(),
                        forall|i: int| 0 <= i < v1.len() ==> has_group(g, #[trigger] v1[i]),
                        forall|x: Seq<char>| strings_view(visited@).contains(x) ==> !reaches_cycle(e, x),
                        forall|t: int|
                            0 <= t < k && has_group(g, #[trigger] strings_view(deps@)[t]) ==> !reaches_cycle(
                                e,
                                strings_view(deps@)[t],
                            ),
                    decreases deps.len() - k,
                {
                    let dn = deps[k].as_str();
                    proof {
                        assert(strings_view(deps@)[k as int] == dn@);
                    }
                    if catalog.contains_name(dn) {
                        proof {
                            assert(first_deps(g, name@).contains(dn@));
                            assert(e(v1.last(), dn@));
                        }
                        if dfs_cycle(dn, catalog, visiting, visited, Ghost(root)) {
                            return true;
                        }
                    }
                    k = k + 1;
                }
                proof {
                    assert forall|d: Seq<char>| #[trigger] e(name@, d) implies !reaches_cycle(e, d) by {
                        let t = choose|t: int| 0 <= t < first_deps(g, name@).len() && first_deps(g, name@)[t] == d;
                        assert(strings_view(deps@)[t] == d);
                    }
                    lemma_safe_from_successors(e, name@);
                }
            } else {
                proof {
                    assert forall|d: Seq<char>| #[trigger] e(name@, d) implies !reaches_cycle(e, d) by {}
                    lemma_safe_from_successors(e, name@);
                }
            }
        },
    }
    proof {
        if !has_group(g, name@) {
            assert forall|d: Seq<char>| #[trigger] e(name@, d) implies !reaches_cycle(e, d) by {}
            lemma_safe_from_successors(e, name@);
        }
    }
    let ghost before_pop = visiting@;
    let ghost before_visited = visited@;
    assert(strings_view(before_pop) == v1);
    assert(!reaches_cycle(e, name@));
    assert(forall|x: Seq<char>| strings_view(before_visited).contains(x) ==> !reaches_cycle(e, x));
    visiting.pop();
    visited.push(String::from_str(name));
    proof {
        assert(visiting@ =~= before_pop.drop_last());
        assert(strings_view(visiting@) =~= v0) by {
            assert forall|t: int| 0 <= t < v0.len() implies strings_view(visiting@)[t] == v0[t] by {
                assert(strings_view(before_pop)[t] == v1[t]);
            }
        }
        assert forall|x: Seq<char>| strings_view(visited@).contains(x) implies !reaches_cycle(e, x) by {
            let t = choose|t: int| 0 <= t < strings_view(visited@).len() && strings_view(visited@)[t] == x;
            assert(visited@ == before_visited.push(visited@.last()));
            if t < visited@.len() - 1 {
                assert(strings_view(before_visited)[t] == x);
            } else {
                assert(x == name@);
            }
        }
    }
    false
}

impl DependencyResolver {
    /// Whether a cycle is reachable from the module, following for each
    /// registered module the dependencies of its first registered version that
    /// are themselves registered.
    pub fn detect_cycles(module_name: &str, catalog: &Catalog) -> (r: bool)
        ensures
            r == reaches_cycle(cycle_edge(catalog@), module_name@),
    {
        catalog.well_formed();
        let mut visiting: Vec<String> = Vec::new();
        let mut visited: Vec<String> = Vec::new();
        proof {
            assert(strings_view(visiting@).len() == 0);
            assert forall|x: Seq<char>| strings_view(visited@).contains(x) implies false by {}
        }
        dfs_cycle(module_name, catalog, &mut visiting, &mut visited, Ghost(module_name@))
    }
}

/// How a depth-first walk of the load graph ends: with the names finished so
/// far, at a module without a registered version, or on a cycle.
pub enum WalkEnd {
    Finished(Seq<Seq<char>>),
    Missing(Seq<char>),
    Cycle,
    /// A dependency whose requirement no registered version of it meets: the
    /// name it designates and the requirement.
    Conflict(Seq<char>, Seq<char>),
}

/// The depth-first walk that builds a load order, from `name`, where `done`
/// holds the names finished before and `path` the names in progress. A
/// finished name is left as it is; a name in progress closes a cycle; a name
/// without a registered version stops the walk; otherwise the dependencies of
/// its latest version are walked in their declared order (each stopping the
/// walk as a conflict where its requirement is not met), and the name is
/// finished after them. (A path as long as the catalog cannot occur: its
/// names are distinct registered names.)
pub open spec fn walk(g: Groups, name: Seq<char>, done: Seq<Seq<char>>, path: Seq<Seq<char>>) -> WalkEnd
    decreases g.len() - path.len(), 0int, 0int,
{
    if done.contains(name) {
        WalkEnd::Finished(done)
    } else if path.contains(name) {
        WalkEnd::Cycle
    } else if !has_latest(g, name) {
        WalkEnd::Missing(name)
    } else if path.len() >= g.len() {
        WalkEnd::Cycle
    } else {
        match walk_deps(g, latest_module(g, name)@.dependencies, 0, done, path.push(name)) {
            WalkEnd::Finished(d) => WalkEnd::Finished(d.push(name)),
            other => other,
        }
    }
}

/// The walk of the dependency strings `deps[k..]` in order: each one's
/// requirement is checked, then the module it names is walked from the names
/// finished by the walks before it.
pub open spec fn walk_deps(
    g: Groups,
    deps: Seq<Seq<char>>,
    k: int,
    done: Seq<Seq<char>>,
    path: Seq<Seq<char>>,
) -> WalkEnd
    decreases g.len() - path.len(), 1int, deps.len() - k,
{
    if k < 0 || k >= deps.len() {
        WalkEnd::Finished(done)
    } else if !requirement_met(g, deps[k]) {
        WalkEnd::Conflict(dep_name(deps[k]), dep_requirement(deps[k])->0)
    } else {
        match walk(g, dep_name(deps[k]), done, path) {
            WalkEnd::Finished(d) => walk_deps(g, deps, k + 1, d, path),
            other => other,
        }
    }
}

/// The load-order facts that the depth-first walk keeps of `o` (the names
/// finished so far) relative to the path `s` of names in progress.
pub open spec fn finished_ok(g: Groups, root: Seq<char>, s: Seq<Seq<char>>, o: Seq<Seq<char>>) -> bool {
    &&& o.no_duplicates()
    &&& forall|x: Seq<char>| o.contains(x) ==> !s.contains(x)
    &&& forall|x: Seq<char>| o.contains(x) ==> reaches(load_edge(g), root, x)
    &&& deps_come_first(g, o)
    &&& forall|i: int| 0 <= i < o.len() ==> requirements_met(g, #[trigger] o[i])
}

/// One step of the depth-first walk that builds a load order: `order` holds
/// the names finished so far, `stack` the path of names in progress from `root`.
fn resolve_dfs(
    name: &str,
    catalog: &Catalog,
    order: &mut Vec<String>,
    stack: &mut Vec<String>,
    root: &str,
) -> (r: Result<(), CatalogError>)
    requires
        catalog_wf(catalog@),
        strings_view(old(stack)@).len() == 0 ==> name@ == root@,
        strings_view(old(stack)@).len() > 0 ==> {
            &&& is_path(load_edge(catalog@), strings_view(old(stack)@))
            &&& strings_view(old(stack)@)[0] == root@
            &&& load_edge(catalog@)(strings_view(old(stack)@).last(), name@)
        },
        strings_view(old(stack)@).no_duplicates(),
        forall|i: int|
            0 <= i < strings_view(old(stack)@).len() ==> has_group(
                catalog@,
                #[trigger] strings_view(old(stack)@)[i],
            ),
        finished_ok(catalog@, root@, strings_view(old(stack)@), strings_view(old(order)@)),
    ensures
        match r {
            Ok(()) => {
                &&& strings_view(final(stack)@) == strings_view(old(stack)@)
                &&& finished_ok(catalog@, root@, strings_view(old(stack)@), strings_view(final(order)@))
                &&& strings_view(final(order)@).contains(name@)
                &&& forall|x: Seq<char>|
                    strings_view(old(order)@).contains(x) ==> strings_view(final(order)@).contains(x)
                &&& !strings_view(old(order)@).contains(name@) ==> strings_view(final(order)@).last()
                    == name@
            },
            Err(CatalogError::ModuleNotFound(x)) => reaches(load_edge(catalog@), root@, x@) && !has_latest(
                catalog@,
                x@,
            ),
            Err(CatalogError::CircularDependency(x)) => x@ == root@ && reaches_cycle(
                load_edge(catalog@),
                root@,
            ),
            Err(CatalogError::VersionConflict { module, .. }) => reaches(
                load_edge(catalog@),
                root@,
                module@,
            ) && has_latest(catalog@, module@),
            Err(_) => false,
        },
        match walk(catalog@, name@, strings_view(old(order)@), strings_view(old(stack)@)) {
            WalkEnd::Finished(d) => r is Ok && strings_view(final(order)@) == d,
            WalkEnd::Missing(x) => r matches Err(CatalogError::ModuleNotFound(n)) && n@ == x,
            WalkEnd::Cycle => r matches Err(CatalogError::CircularDependency(n)) && n@ == root@,
            WalkEnd::Conflict(d, q) => r matches Err(
                CatalogError::VersionConflict { module, required, available },
            ) && module@ == d && required@ == q && available@ == version_text(
                latest_module(catalog@, d).version,
            ),
        },
    decreases catalog@.len() - old(stack)@.len(),
{
    let ghost g = catalog@;
    let ghost e = load_edge(g);
    let ghost s0 = strings_view(stack@);
    let ghost o0 = strings_view(order@);
    if has_string(order, name) {
        return Ok(());
    }
    proof {
        if s0.len() > 0 {
            lemma_path_reaches(e, s0);
            lemma_reaches_step(e, root@, s0.last(), name@);
        } else {
            lemma_path_single(e, name@);
        }
        assert(reaches(e, root@, name@));
    }
    if has_string(stack, name) {
        proof {
            let i = choose|i: int| 0 <= i < s0.len() && s0[i] == name@;
            lemma_cycle_on_path(e, s0, i, name@);
        }
        return Err(CatalogError::CircularDependency(String::from_str(root)));
    }
    let module = catalog.get_latest(name)?;
    let deps = dependency_names(module);
    let ghost raw = latest_module(g, name@)@.dependencies;
    proof {
        assert(strings_view(deps@) == latest_deps(g, name@));
        assert(strings_view(module.dependencies@) == raw);
        lemma_registered_bound(g, s0);
    }
    stack.push(String::from_str(name));
    let ghost s1 = strings_view(stack@);
    proof {
        assert(s1 =~= s0.push(name@));
        if s0.len() > 0 {
            lemma_path_push(e, s0, name@);
        } else {
            lemma_path_single(e, name@);
        }
        assert forall|i: int| 0 <= i < s1.len() implies has_group(g, #[trigger] s1[i]) by {
            if i < s0.len() {
                assert(s1[i] == s0[i]);
            }
        }
        lemma_registered_bound(g, s1);
        assert forall|x: Seq<char>| o0.contains(x) implies !s1.contains(x) by {
            if s1.contains(x) {
                let t = choose|t: int| 0 <= t < s1.len() && s1[t] == x;
                if t < s0.len() {
                    assert(s0[t] == x);
                }
            }
        }
    }
    proof {
        assert(!s0.contains(name@));
        assert(s0.len() < g.len());
        assert(walk(g, name@, o0, s0) == match walk_deps(g, raw, 0, o0, s1) {
            WalkEnd::Finished(d) => WalkEnd::Finished(d.push(name@)),
            other => other,
        });
    }
    let mut k: usize = 0;
    while k < deps.len()
        invariant
            g == catalog@,
            e == load_edge(g),
            catalog_wf(g),
            k <= deps@.len(),
            strings_view(deps@) == latest_deps(g, name@),
            has_latest(g, name@),
            strings_view(stack@) == s1,
            stack@.len() == s1.len(),
            old(stack)@.len() == s0.len(),
            s1 == s0.push(name@),
            is_path(e, s1),
            s1[0] == root@,
            s1.no_duplicates(),
            s1.len() <= g.len(),
            forall|i: int| 0 <= i < s1.len() ==> has_group(g, #[trigger] s1[i]),
            finished_ok(g, root@, s1, strings_view(order@)),
            forall|x: Seq<char>| o0.contains(x) ==> strings_view(order@).contains(x),
            forall|t: int| 0 <= t < k ==> strings_view(order@).contains(#[trigger] strings_view(deps@)[t]),
            raw == latest_module(g, name@)@.dependencies,
            strings_view(module.dependencies@) == raw,
            latest_deps(g, name@) == raw.map_values(|d: Seq<char>| dep_name(d)),
            forall|t: int| 0 <= t < k ==> requirement_met(g, #[trigger] raw[t]),
            walk_deps(g, raw, 0, o0, s1) == walk_deps(g, raw, k as int, strings_view(order@), s1),
            walk(g, name@, o0, s0) == match walk_deps(g, raw, 0, o0, s1) {
                WalkEnd::Finished(d) => WalkEnd::Finished(d.push(name@)),
                other => other,
            },
            o0 == strings_view(old(order)@),
            s0 == strings_view(old(stack)@),
        decreases deps.len() - k,
    {
        let dn = deps[k].as_str();
        proof {
            assert(strings_view(deps@).len() == deps@.len());
            assert(strings_view(module.dependencies@).len() == module.dependencies@.len());
        }
        let dep_text = module.dependencies[k].as_str();
        proof {
            assert(strings_view(deps@)[k as int] == dn@);
            assert(latest_deps(g, name@).contains(dn@));
            assert(e(s1.last(), dn@));
            assert(strings_view(module.dependencies@)[k as int] == dep_text@);
            assert(dep_text@ == raw[k as int]);
            assert(dn@ == dep_name(raw[k as int]));
        }
        let ghost before = strings_view(order@);
        match requirement_conflict(catalog, dep_text) {
            Some(err) => {
                proof {
                    lemma_path_push(e, s1, dn@);
                    lemma_path_reaches(e, s1.push(dn@));
                    assert(s1.push(dn@)[0] == root@);
                }
                return Err(err);
            },
            None => {},
        }
        if !has_string(order, dn) {
            match resolve_dfs(dn, catalog, order, stack, root) {
                Ok(()) => {},
                Err(err) => {
                    proof {
                        assert(walk_deps(g, raw, k as int, before, s1) == walk(g, dn@, before, s1));
                    }
                    return Err(err);
                },
            }
        }
        proof {
            assert forall|t: int| 0 <= t < k + 1 implies strings_view(order@).contains(#[trigger] strings_view(deps@)[t]) by {
                if t < k {
                    assert(before.contains(strings_view(deps@)[t]));
                }
            }
        }
        k = k + 1;
    }
    let ghost o1 = strings_view(order@);
    let ghost before_pop = stack@;
    stack.pop();
    order.push(String::from_str(name));
    proof {
        assert(stack@ =~= before_pop.drop_last());
        assert(strings_view(stack@) =~= s0) by {
            assert forall|t: int| 0 <= t < s0.len() implies strings_view(stack@)[t] == s0[t] by {
                assert(strings_view(before_pop)[t] == s1[t]);
            }
        }
        let o2 = strings_view(order@);
        assert(o2 =~= o1.push(name@));
        assert(!o1.contains(name@)) by {
            assert(s1.contains(name@)) by {
                assert(s1[s0.len() as int] == name@);
            }
        }
        assert forall|x: Seq<char>| o2.contains(x) implies !s0.contains(x) by {
            let t = choose|t: int| 0 <= t < o2.len() && o2[t] == x;
            if t < o1.len() {
                assert(o1[t] == x);
                assert(o1.contains(x));
                if s0.contains(x) {
                    let u = choose|u: int| 0 <= u < s0.len() && s0[u] == x;
                    assert(s1[u] == x);
                    assert(s1.contains(x));
                }
            } else {
                assert(x == name@);
                assert(!s0.contains(name@));
            }
        }
        assert forall|x: Seq<char>| o2.contains(x) implies reaches(e, root@, x) by {
            let t = choose|t: int| 0 <= t < o2.len() && o2[t] == x;
            if t < o1.len() {
                assert(o1[t] == x);
                assert(o1.contains(x));
            } else {
                assert(x == name@);
                assert(reaches(e, root@, name@));
            }
        }
        assert(o2.no_duplicates()) by {
            assert forall|a: int, b: int| 0 <= a < b < o2.len() implies o2[a] != o2[b] by {
                if b == o1.len() {
                    assert(o1[a] == o2[a]);
                }
            }
        }
        assert forall|i: int| 0 <= i < o2.len() implies has_latest(g, #[trigger] o2[i]) && forall|d: Seq<char>|
            #[trigger] latest_deps(g, o2[i]).contains(d) ==> exists|k: int| 0 <= k < i && o2[k] == d by {
            if i < o1.len() {
                assert(o2[i] == o1[i]);
                assert forall|d: Seq<char>| #[trigger] latest_deps(g, o2[i]).contains(d) implies exists|k: int| 0 <= k < i && o2[k] == d by {
                    let k = choose|k: int| 0 <= k < i && o1[k] == d;
                    assert(o2[k] == d);
                }
            } else {
                assert forall|d: Seq<char>| #[trigger] latest_deps(g, o2[i]).contains(d) implies exists|k: int| 0 <= k < i && o2[k] == d by {
                    let t = choose|t: int| 0 <= t < latest_deps(g, name@).len() && latest_deps(g, name@)[t] == d;
                    assert(strings_view(deps@)[t] == d);
                    assert(o1.contains(d));
                    let k = choose|k: int| 0 <= k < o1.len() && o1[k] == d;
                    assert(o2[k] == d);
                }
            }
        }
        assert(o2.contains(name@)) by {
            assert(o2[o1.len() as int] == name@);
        }
        assert(finished_ok(g, root@, s0, o2));
        assert forall|x: Seq<char>| o0.contains(x) implies o2.contains(x) by {
            assert(o1.contains(x));
            let t = choose|t: int| 0 <= t < o1.len() && o1[t] == x;
            assert(o2[t] == x);
        }
        assert(o2.last() == name@);
    }
    Ok(())
}

impl DependencyResolver {
    /// The load order of a module: the names of the modules it needs, each
    /// after the modules it depends on (following latest versions), the module
    /// itself last; precisely, the order in which a depth-first walk that takes
    /// the dependencies of each module in their declared order finishes them
    /// (see `walk`). Every version requirement that a needed module puts on a
    /// dependency (`name@requirement`) must be met by some registered version
    /// of that dependency. Fails with `CircularDependency(module_name)` where
    /// cycle detection finds a cycle, and otherwise at the first problem the
    /// walk meets: `ModuleNotFound(name)` for a needed module without a
    /// registered version, `VersionConflict` (the dependency, the requirement
    /// and its latest version) for a requirement that no registered version
    /// meets, or `CircularDependency(module_name)` for a cycle among latest
    /// versions.
    pub fn resolve(module_name: &str, catalog: &Catalog) -> (r: Result<Vec<String>, CatalogError>)
        ensures
            r is Ok ==> forall|x: Seq<char>|
                reaches(load_edge(catalog@), module_name@, x) ==> #[trigger] requirements_met(
                    catalog@,
                    x,
                ),
            reaches_cycle(cycle_edge(catalog@), module_name@) ==> (r matches Err(
                CatalogError::CircularDependency(n),
            ) && n@ == module_name@),
            !reaches_cycle(cycle_edge(catalog@), module_name@) ==> match walk(
                catalog@,
                module_name@,
                Seq::empty(),
                Seq::empty(),
            ) {
                WalkEnd::Finished(o) => {
                    &&& is_load_order(catalog@, module_name@, o)
                    &&& r matches Ok(order)
                    &&& strings_view(order@) == o
                },
                WalkEnd::Missing(x) => {
                    &&& r matches Err(CatalogError::ModuleNotFound(n)) && n@ == x
                    &&& reaches(load_edge(catalog@), module_name@, x)
                    &&& !has_latest(catalog@, x)
                },
                WalkEnd::Cycle => {
                    &&& r matches Err(CatalogError::CircularDependency(n)) && n@ == module_name@
                    &&& reaches_cycle(load_edge(catalog@), module_name@)
                },
                WalkEnd::Conflict(d, q) => {
                    &&& r matches Err(CatalogError::VersionConflict { module, required, available })
                        && module@ == d && required@ == q && available@ == version_text(
                        latest_module(catalog@, d).version,
                    )
                    &&& reaches(load_edge(catalog@), module_name@, d)
                    &&& has_latest(catalog@, d)
                },
            },
    {
        if Self::detect_cycles(module_name, catalog) {
            return Err(CatalogError::CircularDependency(String::from_str(module_name)));
        }
        catalog.well_formed();
        let mut order: Vec<String> = Vec::new();
        let mut stack: Vec<String> = Vec::new();
        proof {
            assert(strings_view(stack@).len() == 0);
            assert(strings_view(order@) =~= Seq::<Seq<char>>::empty());
            assert(strings_view(stack@) =~= Seq::<Seq<char>>::empty());
        }
        resolve_dfs(module_name, catalog, &mut order, &mut stack, module_name)?;
        proof {
            let g = catalog@;
            let e = load_edge(g);
            let o = strings_view(order@);
            assert forall|x: Seq<char>, y: Seq<char>| o.contains(x) && #[trigger] e(x, y) implies o.contains(y) by {
                let i = choose|i: int| 0 <= i < o.len() && o[i] == x;
                assert(has_latest(g, o[i]));
                assert(latest_deps(g, o[i]).contains(y));
                let k = choose|k: int| 0 <= k < i && o[k] == y;
            }
            assert forall|x: Seq<char>| reaches(e, module_name@, x) implies o.contains(x) by {
                lemma_closed_holds_reachable(e, o, module_name@, x);
            }
            assert forall|x: Seq<char>| reaches(e, module_name@, x) implies #[trigger] requirements_met(g, x) by {
                lemma_closed_holds_reachable(e, o, module_name@, x);
                assert(o.contains(x));
                let i = choose|i: int| 0 <= i < o.len() && o[i] == x;
                assert(requirements_met(g, o[i]));
            }
        }
        Ok(order)
    }
}

/// The queue of the breadth-first walk after the dependency names `deps` have
/// been met in order: each registered name not yet queued joins its end.
pub open spec fn enqueue(g: Groups, seen: Seq<Seq<char>>, deps: Seq<Seq<char>>) -> Seq<Seq<char>>
    decreases deps.len(),
{
    if deps.len() == 0 {
        seen
    } else {
        let prev = enqueue(g, seen, deps.drop_last());
        let d = deps.last();
        if !prev.contains(d) && has_group(g, d) {
            prev.push(d)
        } else {
            prev
        }
    }
}

/// The first name without a registered version that the breadth-first walk
/// of the dependency tree meets, from position `h` of the queue `seen`, if
/// any. Each name met in turn queues the dependencies of its latest version.
/// (`fuel` bounds the walk; the queue holds the root and distinct registered
/// names, so the number of groups plus one is enough.)
pub open spec fn first_missing(g: Groups, seen: Seq<Seq<char>>, h: int, fuel: nat) -> Option<Seq<char>>
    decreases fuel,
{
    if fuel == 0 || h < 0 || h >= seen.len() {
        None
    } else if !has_latest(g, seen[h]) {
        Some(seen[h])
    } else {
        first_missing(g, enqueue(g, seen, latest_deps(g, seen[h])), h + 1, (fuel - 1) as nat)
    }
}

/// The dependency tree of a module: for each module reachable from it, its
/// name and the names its latest version depends on.
#[derive(Debug)]
pub struct DependencyTree {
    entries: Vec<(String, Vec<String>)>,
}

impl View for DependencyTree {
    type V = Seq<(Seq<char>, Seq<Seq<char>>)>;

    closed spec fn view(&self) -> Seq<(Seq<char>, Seq<Seq<char>>)> {
        self.entries@.map_values(|e: (String, Vec<String>)| (e.0@, strings_view(e.1@)))
    }
}

/// The names of the entries of a dependency tree.
pub open spec fn tree_keys(t: Seq<(Seq<char>, Seq<Seq<char>>)>) -> Seq<Seq<char>> {
    t.map_values(|e: (Seq<char>, Seq<Seq<char>>)| e.0)
}

impl DependencyTree {
    /// The dependency names recorded for a module, if it is in the tree.
    pub fn get(&self, name: &str) -> (r: Option<&Vec<String>>)
        ensures
            match r {
                Some(v) => exists|i: int|
                    0 <= i < self@.len() && self@[i].0 == name@ && strings_view(v@) == self@[i].1,
                None => !tree_keys(self@).contains(name@),
            },
    {
        let mut i: usize = 0;
        while i < self.entries.len()
            invariant
                i <= self.entries@.len(),
                self@.len() == self.entries@.len(),
                forall|k: int| 0 <= k < i ==> self@[k].0 != name@,
            decreases self.entries.len() - i,
        {
            if str_eq(self.entries[i].0.as_str(), name) {
                assert(self@[i as int].0 == name@);
                return Some(&self.entries[i].1);
            }
            i = i + 1;
        }
        assert forall|k: int| 0 <= k < tree_keys(self@).len() implies tree_keys(self@)[k] != name@ by {
            assert(tree_keys(self@)[k] == self@[k].0);
        }
        None
    }

    /// Whether a module is in the tree.
    pub fn contains_key(&self, name: &str) -> (r: bool)
        ensures
            r == tree_keys(self@).contains(name@),
    {
        match self.get(name) {
            Some(_) => {
                proof {
                    let i = choose|i: int| 0 <= i < self@.len() && self@[i].0 == name@;
                    assert(tree_keys(self@)[i] == name@);
                }
                true
            },
            None => false,
        }
    }

    /// The number of modules in the tree.
    pub fn len(&self) -> (r: usize)
        ensures
            r == self@.len(),
    {
        self.entries.len()
    }
}

impl DependencyResolver {
    /// The dependency tree of a module, found breadth first: the module and
    /// every registered module reachable through latest versions, each with the
    /// names its latest version depends on. Fails with `ModuleNotFound(name)`
    /// for the first module the breadth-first walk meets without a registered
    /// version (the module itself included; see `first_missing`).
    pub fn dependency_tree(module_name: &str, catalog: &Catalog) -> (r: Result<DependencyTree, CatalogError>)
        ensures
            match r {
                Ok(t) => {
                    &&& tree_keys(t@).no_duplicates()
                    &&& tree_keys(t@).len() > 0
                    &&& tree_keys(t@)[0] == module_name@
                    &&& forall|x: Seq<char>|
                        tree_keys(t@).contains(x) <==> reaches(tree_edge(catalog@), module_name@, x)
                    &&& forall|i: int|
                        0 <= i < t@.len() ==> has_latest(catalog@, #[trigger] t@[i].0) && t@[i].1
                            == latest_deps(catalog@, t@[i].0)
                },
                Err(e) => e matches CatalogError::ModuleNotFound(x) && reaches(
                    tree_edge(catalog@),
                    module_name@,
                    x@,
                ) && !has_latest(catalog@, x@),
            },
            match first_missing(catalog@, seq![module_name@], 0, (catalog@.len() + 1) as nat) {
                Some(x) => r matches Err(CatalogError::ModuleNotFound(n)) && n@ == x,
                None => r is Ok,
            },
    {
        catalog.well_formed();
        let ghost g = catalog@;
        let ghost e = tree_edge(g);
        let mut seen: Vec<String> = Vec::new();
        seen.push(String::from_str(module_name));
        let mut entries: Vec<(String, Vec<String>)> = Vec::new();
        let mut h: usize = 0;
        proof {
            lemma_path_single(e, module_name@);
            assert(strings_view(seen@) =~= seq![module_name@]);
            assert(seq![module_name@].drop_first().len() == 0);
        }
        let ghost fuel: nat = (g.len() + 1) as nat;
        while h < seen.len()
            invariant
                g == catalog@,
                e == tree_edge(g),
                catalog_wf(g),
                strings_view(seen@).no_duplicates(),
                strings_view(seen@).len() > 0,
                strings_view(seen@)[0] == module_name@,
                forall|i: int| 0 <= i < strings_view(seen@).len() ==> reaches(e, module_name@, #[trigger] strings_view(seen@)[i]),
                forall|i: int| 1 <= i < strings_view(seen@).len() ==> has_group(g, #[trigger] strings_view(seen@)[i]),
                strings_view(seen@).len() <= g.len() + 1,
                h <= seen@.len(),
                entries@.len() == h,
                forall|k: int| 0 <= k < h ==> (#[trigger] entries@[k]).0@ == strings_view(seen@)[k]
                    && has_latest(g, strings_view(seen@)[k]) && strings_view(entries@[k].1@) == latest_deps(
                    g,
                    strings_view(seen@)[k],
                ),
                forall|k: int, d: Seq<char>| 0 <= k < h && #[trigger] e(strings_view(seen@)[k], d) ==> strings_view(seen@).contains(d),
                fuel == g.len() + 1,
                first_missing(g, seq![module_name@], 0, fuel) == first_missing(
                    g,
                    strings_view(seen@),
                    h as int,
                    (fuel - h) as nat,
                ),
            decreases g.len() + 1 - h,
        {
            let cur = seen[h].clone();
            proof {
                assert(cur@ == strings_view(seen@)[h as int]);
                assert(h < fuel);
            }
            let module = match catalog.get_latest(cur.as_str()) {
                Ok(m) => m,
                Err(err) => {
                    return Err(err);
                },
            };
            let deps = dependency_names(module);
            let ghost sv0 = strings_view(seen@);
            let mut j: usize = 0;
            while j < deps.len()
                invariant
                    g == catalog@,
                    e == tree_edge(g),
                    catalog_wf(g),
                    j <= deps@.len(),
                    strings_view(deps@) == latest_deps(g, cur@),
                    has_latest(g, cur@),
                    h < sv0.len(),
                    cur@ == sv0[h as int],
                    reaches(e, module_name@, cur@),
                    sv0.len() <= strings_view(seen@).len(),
                    forall|i: int| 0 <= i < sv0.len() ==> strings_view(seen@)[i] == sv0[i],
                    strings_view(seen@).no_duplicates(),
                    strings_view(seen@)[0] == module_name@,
                    forall|i: int| 0 <= i < strings_view(seen@).len() ==> reaches(e, module_name@, #[trigger] strings_view(seen@)[i]),
                    forall|i: int| 1 <= i < strings_view(seen@).len() ==> has_group(g, #[trigger] strings_view(seen@)[i]),
                    forall|t: int| 0 <= t < j && has_group(g, #[trigger] strings_view(deps@)[t]) ==> strings_view(seen@).contains(strings_view(deps@)[t]),
                    strings_view(seen@) == enqueue(g, sv0, strings_view(deps@).take(j as int)),
                decreases deps.len() - j,
            {
                let dn = deps[j].as_str();
                proof {
                    assert(strings_view(deps@)[j as int] == dn@);
                }
                let ghost sv_before = strings_view(seen@);
                proof {
                    let dl = strings_view(deps@);
                    assert(dl.take(j + 1).drop_last() =~= dl.take(j as int));
                    assert(dl.take(j + 1).last() == dn@);
                }
                if !has_string(&seen, dn) && catalog.contains_name(dn) {
                    seen.push(String::from_str(dn));
                    proof {
                        let sv = strings_view(seen@);
                        assert(sv =~= sv_before.push(dn@));
                        assert(latest_deps(g, cur@).contains(dn@));
                        assert(e(cur@, dn@));
                        lemma_reaches_step(e, module_name@, cur@, dn@);
                        assert(sv.no_duplicates()) by {
                            assert forall|a: int, b: int| 0 <= a < b < sv.len() implies sv[a] != sv[b] by {
                                if b == sv_before.len() {
                                    assert(sv[a] == sv_before[a]);
                                    assert(sv_before.contains(sv[a]));
                                }
                            }
                        }
                        assert forall|i: int| 0 <= i < sv.len() implies reaches(e, module_name@, #[trigger] sv[i]) by {
                            if i < sv_before.len() {
                                assert(sv[i] == sv_before[i]);
                            }
                        }
                        assert forall|i: int| 1 <= i < sv.len() implies has_group(g, #[trigger] sv[i]) by {
                            if i < sv_before.len() {
                                assert(sv[i] == sv_before[i]);
                            }
                        }
                        assert forall|t: int| 0 <= t < j + 1 && has_group(g, #[trigger] strings_view(deps@)[t]) implies sv.contains(strings_view(deps@)[t]) by {
                            if t < j {
                                let u = choose|u: int| 0 <= u < sv_before.len() && sv_before[u] == strings_view(deps@)[t];
                                assert(sv[u] == sv_before[u]);
                            } else {
                                assert(sv[sv_before.len() as int] == dn@);
                            }
                        }
                    }
                }
                j = j + 1;
            }
            proof {
                let sv = strings_view(seen@);
                assert(strings_view(deps@).take(deps@.len() as int) =~= strings_view(deps@));
                assert(strings_view(deps@).len() == deps@.len());
                assert(sv == enqueue(g, sv0, latest_deps(g, cur@)));
                assert(first_missing(g, sv0, h as int, (fuel - h) as nat) == first_missing(
                    g,
                    sv,
                    h + 1,
                    (fuel - (h + 1)) as nat,
                ));
                lemma_registered_bound(g, sv.drop_first());
                assert forall|i: int| 0 <= i < sv.drop_first().len() implies has_group(g, #[trigger] sv.drop_first()[i]) by {
                    assert(sv.drop_first()[i] == sv[i + 1]);
                }
                lemma_registered_bound(g, sv.drop_first());
            }
            let ghost ent_before = entries@;
            entries.push((cur, deps));
            proof {
                let sv = strings_view(seen@);
                assert forall|k: int| 0 <= k < h + 1 implies (#[trigger] entries@[k]).0@ == sv[k]
                    && has_latest(g, sv[k]) && strings_view(entries@[k].1@) == latest_deps(g, sv[k]) by {
                    if k < h {
                        assert(entries@[k] == ent_before[k]);
                        assert(sv[k] == sv0[k]);
                    }
                }
                assert forall|k: int, d: Seq<char>| 0 <= k < h + 1 && #[trigger] e(sv[k], d) implies sv.contains(d) by {
                    assert(sv[k] == sv0[k]);
                    if k < h {
                        assert(e(sv0[k], d));
                        assert(sv0.contains(d));
                        let u = choose|u: int| 0 <= u < sv0.len() && sv0[u] == d;
                        assert(sv[u] == sv0[u]);
                    } else {
                        let t = choose|t: int| 0 <= t < latest_deps(g, cur@).len() && latest_deps(g, cur@)[t] == d;
                        assert(strings_view(deps@)[t] == d);
                    }
                }
            }
            h = h + 1;
        }
        let tree = DependencyTree { entries };
        proof {
            let sv = strings_view(seen@);
            let keys = tree_keys(tree@);
            assert(keys =~= sv) by {
                assert forall|k: int| 0 <= k < keys.len() implies keys[k] == sv[k] by {
                    assert(keys[k] == tree@[k].0);
                    assert(tree@[k].0 == entries@[k].0@);
                }
            }
            assert forall|x: Seq<char>| reaches(e, module_name@, x) implies keys.contains(x) by {
                assert forall|a: Seq<char>, b: Seq<char>| sv.contains(a) && #[trigger] e(a, b) implies sv.contains(b) by {
                    let k = choose|k: int| 0 <= k < sv.len() && sv[k] == a;
                }
                assert(sv.contains(module_name@)) by {
                    assert(sv[0] == module_name@);
                }
                lemma_closed_holds_reachable(e, sv, module_name@, x);
            }
            assert forall|x: Seq<char>| keys.contains(x) implies reaches(e, module_name@, x) by {
                let k = choose|k: int| 0 <= k < sv.len() && sv[k] == x;
            }
            assert forall|i: int| 0 <= i < tree@.len() implies has_latest(g, #[trigger] tree@[i].0) && tree@[i].1
                == latest_deps(g, tree@[i].0) by {
                assert(tree@[i].0 == entries@[i].0@);
                assert(tree@[i].1 == strings_view(entries@[i].1@));
            }
        }
        Ok(tree)
    }
}

} // verus!
