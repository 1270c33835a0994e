//! Properties of the catalog that span several operations: what a read gives
//! back after a registration, what an unregistration undoes, how both change
//! the count, the shape that both keep, what a search finds whatever the
//! case, how the latest version and the best matching version relate to the
//! others, which dependency names the graphs follow, when a version conflict
//! is reported, and when a module is compatible with a platform.

use vstd::prelude::*;
use vstd::seq_lib::{to_multiset_contains, to_multiset_len, to_multiset_build};
use crate::catalog::{Groups, catalog_wf, has_group, group_index, group_of, lemma_group_index,
    is_latest_index, has_latest, latest_module, latest_in, with_module, has_version,
    without_version, version_parts, total_modules, models, lemma_with_module, catalog_of,
    has_duplicate, lemma_catalog_of_has_version, all_modules, matching, latest_of_groups,
    group_names};
use crate::text::{unicode_lowercase, occurs_at, has_substring, lex_order, lemma_lex_order_equal,
    lemma_lex_order_antisymmetric};
use crate::compat::{CompatibilityReport, is_report_for};
use crate::module::{TechModule, ModuleModel, strings_view, dep_name, dep_requirement};
use crate::resolver::{walk, walk_deps, WalkEnd, requirement_met, cycle_edge, first_deps, tree_edge,
    load_edge, latest_deps, tree_keys};
use crate::graph::{reaches, lemma_reaches_step};
use crate::platform::Platform;
use crate::selection::{satisfies, is_best_index};
use crate::sort::{versions_wf, sorted_by, module_le, ModuleOrder, string_le, lemma_map_permutation};
use crate::version::{version_order, lemma_version_order, semver_parse, version_text, semver_req_matches,
    lemma_parse_version_text};

verus! {

/// A non-empty list of modules with valid versions has a latest one.
pub proof fn lemma_latest_exists(vs: Seq<TechModule>)
    requires
        vs.len() > 0,
        versions_wf(vs),
    ensures
        exists|i: int| is_latest_index(vs, i),
    decreases vs.len(),
{
    if vs.len() == 1 {
        lemma_version_order(vs[0].version, vs[0].version, vs[0].version);
        assert(is_latest_index(vs, 0));
    } else {
        let prefix = vs.drop_last();
        let n = vs.len() - 1;
        let x = vs[n];
        assert forall|t: int| 0 <= t < prefix.len() implies (#[trigger] prefix[t]).version.wf() by {
            assert(prefix[t] == vs[t]);
        }
        lemma_latest_exists(prefix);
        let i = choose|i: int| is_latest_index(prefix, i);
        lemma_version_order(x.version, prefix[i].version, x.version);
        if version_order(x.version, prefix[i].version) >= 0 {
            assert forall|j: int| 0 <= j < vs.len() implies version_order(
                (#[trigger] vs[j]).version,
                vs[n].version,
            ) <= 0 by {
                if j < n {
                    assert(vs[j] == prefix[j]);
                    lemma_version_order(vs[j].version, prefix[i].version, x.version);
                } else {
                    lemma_version_order(x.version, x.version, x.version);
                }
            }
            assert(is_latest_index(vs, n));
        } else {
            assert forall|j: int| 0 <= j < vs.len() implies version_order(
                (#[trigger] vs[j]).version,
                vs[i].version,
            ) <= 0 by {
                if j < n {
                    assert(vs[j] == prefix[j]);
                }
            }
            assert forall|j: int| i < j < vs.len() implies version_order(
                (#[trigger] vs[j]).version,
                vs[i].version,
            ) < 0 by {
                if j < n {
                    assert(vs[j] == prefix[j]);
                }
            }
            assert(vs[i] == prefix[i]);
            assert(is_latest_index(vs, i));
        }
    }
}

/// The latest version of a module (what `get_latest` gives) is one of its
/// registered versions, and no registered version of it is greater.
pub proof fn law_latest_is_greatest(g: Groups, name: Seq<char>)
    requires
        catalog_wf(g),
        has_latest(g, name),
    ensures
        group_of(g, name).contains(latest_module(g, name)),
        forall|j: int|
            0 <= j < group_of(g, name).len() ==> version_order(
                (#[trigger] group_of(g, name)[j]).version,
                latest_module(g, name).version,
            ) <= 0,
{
    let vs = group_of(g, name);
    assert(has_group(g, name));
    let k = group_index(g, name);
    assert(versions_wf(g[k].1));
    lemma_latest_exists(vs);
    let i = choose|i: int| is_latest_index(vs, i);
    assert(latest_in(vs) == vs[i]);
    assert(vs.contains(vs[i]));
}

/// After registering a module whose name and version were not registered,
/// the catalog is still well formed, and every registered module with that
/// name and version is that module: `get` with its name and the text of its
/// version (which parses back to its parts) gives it.
pub proof fn law_register_then_get(g: Groups, m: TechModule)
    requires
        catalog_wf(g),
        m.version.wf(),
        !has_version(g, m.name@, version_parts(m.version)),
    ensures
        catalog_wf(with_module(g, m)),
        semver_parse(version_text(m.version)) == Some(version_parts(m.version)),
        has_version(with_module(g, m), m.name@, version_parts(m.version)),
        forall|j: int|
            0 <= j < group_of(with_module(g, m), m.name@).len() && version_parts(
                (#[trigger] group_of(with_module(g, m), m.name@)[j]).version,
            ) == version_parts(m.version) ==> group_of(with_module(g, m), m.name@)[j] == m,
{
    let ng = with_module(g, m);
    let p = version_parts(m.version);
    lemma_parse_version_text(m.version);
    lemma_with_module(g, m, m.name@, p);
    let vs = group_of(ng, m.name@);
    if has_group(g, m.name@) {
        let i = group_index(g, m.name@);
        lemma_group_index(g, m.name@, i);
        lemma_group_index(ng, m.name@, i);
        let old_vs = g[i].1;
        assert(vs == old_vs.push(m));
        assert forall|j: int| 0 <= j < vs.len() && version_parts((#[trigger] vs[j]).version) == p implies vs[j] == m by {
            if j < old_vs.len() {
                assert(vs[j] == old_vs[j]);
                assert(version_parts(group_of(g, m.name@)[j].version) == p);
            }
        }
    } else {
        let n = g.len() as int;
        lemma_group_index(ng, m.name@, n);
        assert(vs == seq![m]);
    }
}

/// Registering a module leaves the versions of every other name as they were.
pub proof fn law_register_leaves_other_names(g: Groups, m: TechModule, other: Seq<char>)
    requires
        catalog_wf(g),
        m.version.wf(),
        other != m.name@,
    ensures
        group_of(with_module(g, m), other) == group_of(g, other),
{
    let ng = with_module(g, m);
    lemma_with_module(g, m, other, version_parts(m.version));
    if has_group(g, other) {
        let k = group_index(g, other);
        lemma_group_index(g, other, k);
        assert(ng[k] == g[k]);
        lemma_group_index(ng, other, k);
    } else {
        assert forall|t: int| 0 <= t < ng.len() implies ng[t].0 != other by {
            if t < g.len() {
                if has_group(g, m.name@) {
                    let i = group_index(g, m.name@);
                    if t == i {
                        assert(ng[t].0 == m.name@);
                    } else {
                        assert(ng[t] == g[t]);
                    }
                } else {
                    assert(ng[t] == g[t]);
                }
            }
        }
    }
}

/// Registering a module whose name and version were not registered, then
/// unregistering that version (by the text of its version, which parses back
/// to its parts), gives back the catalog as it was. (Where the
/// name had a group with no version at all, which registration never makes,
/// the unregistration removes that group too.)
pub proof fn law_register_then_unregister(g: Groups, m: TechModule)
    requires
        catalog_wf(g),
        m.version.wf(),
        !has_version(g, m.name@, version_parts(m.version)),
        has_group(g, m.name@) ==> has_latest(g, m.name@),
    ensures
        semver_parse(version_text(m.version)) == Some(version_parts(m.version)),
        has_group(with_module(g, m), m.name@),
        has_version(with_module(g, m), m.name@, version_parts(m.version)),
        without_version(with_module(g, m), m.name@, version_parts(m.version)) == g,
{
    let ng = with_module(g, m);
    let p = version_parts(m.version);
    lemma_parse_version_text(m.version);
    lemma_with_module(g, m, m.name@, p);
    let pred = |x: TechModule| version_parts(x.version) != p;
    if has_group(g, m.name@) {
        let i = group_index(g, m.name@);
        lemma_group_index(g, m.name@, i);
        lemma_group_index(ng, m.name@, i);
        let old_vs = g[i].1;
        assert(ng[i].1 == old_vs.push(m));
        assert forall|k: int| 0 <= k < old_vs.len() implies pred(old_vs[k]) by {
            assert(old_vs[k] == group_of(g, m.name@)[k]);
        }
        crate::catalog::lemma_filter_all(old_vs, pred);
        old_vs.lemma_filter_push(m, pred);
        assert(ng[i].1.filter(pred) == old_vs);
        assert(old_vs.len() > 0);
        assert(ng.update(i, (m.name@, old_vs)) =~= g);
    } else {
        let n = g.len() as int;
        lemma_group_index(ng, m.name@, n);
        assert(ng[n].1 == seq![m]);
        Seq::<TechModule>::empty().lemma_filter_push(m, pred);
        assert(Seq::<TechModule>::empty().filter(pred) =~= Seq::<TechModule>::empty());
        assert(seq![m] =~= Seq::<TechModule>::empty().push(m));
        assert(ng[n].1.filter(pred).len() == 0);
        assert(ng.remove(n) =~= g);
    }
}

/// Unregistering a version of a registered name removes that version, keeps
/// every other version of the name, and leaves every other name as it was;
/// the catalog stays well formed.
pub proof fn law_unregister_removes_only_that_version(
    g: Groups,
    name: Seq<char>,
    p: (u64, u64, u64, Seq<char>, Seq<char>),
    q: (u64, u64, u64, Seq<char>, Seq<char>),
    other: Seq<char>,
)
    requires
        catalog_wf(g),
        has_group(g, name),
    ensures
        catalog_wf(without_version(g, name, p)),
        !has_version(without_version(g, name, p), name, p),
        q != p ==> (has_version(without_version(g, name, p), name, q) <==> has_version(g, name, q)),
        other != name ==> group_of(without_version(g, name, p), other) == group_of(g, other),
{
    let ng = without_version(g, name, p);
    let i = group_index(g, name);
    lemma_group_index(g, name, i);
    let vs = g[i].1;
    let pred = |x: TechModule| version_parts(x.version) != p;
    let kept = vs.filter(pred);
    assert forall|u: int| 0 <= u < kept.len() implies (#[trigger] kept[u]).version.wf() && pred(kept[u]) by {
        crate::catalog::lemma_filter_member(vs, pred, u);
        let t = choose|t: int| 0 <= t < vs.len() && vs[t] == kept[u];
        assert(versions_wf(g[i].1));
    }
    if kept.len() == 0 {
        assert(ng == g.remove(i));
        assert forall|a: int, b: int| 0 <= a < b < ng.len() implies ng[a].0 != ng[b].0 by {
            let a2 = if a < i { a } else { a + 1 };
            let b2 = if b < i { b } else { b + 1 };
            assert(ng[a] == g[a2] && ng[b] == g[b2]);
        }
        assert forall|t: int| 0 <= t < ng.len() implies versions_wf(#[trigger] ng[t].1) by {
            let t2 = if t < i { t } else { t + 1 };
            assert(ng[t] == g[t2]);
        }
        assert forall|t: int| 0 <= t < ng.len() implies ng[t].0 != name by {
            let t2 = if t < i { t } else { t + 1 };
            assert(ng[t] == g[t2]);
        }
        assert(!has_group(ng, name));
        if q != p && has_version(g, name, q) {
            let j = choose|j: int| 0 <= j < group_of(g, name).len() && version_parts(#[trigger] group_of(g, name)[j].version) == q;
            vs.lemma_filter_contains(pred, j);
            assert(kept.contains(vs[j]));
            assert(false);
        }
        if other != name && has_group(g, other) {
            let k = group_index(g, other);
            lemma_group_index(g, other, k);
            let k2 = if k < i { k } else { k - 1 };
            assert(ng[k2] == g[k]);
            lemma_group_index(ng, other, k2);
        }
        if other != name && !has_group(g, other) {
            assert forall|t: int| 0 <= t < ng.len() implies ng[t].0 != other by {
                let t2 = if t < i { t } else { t + 1 };
                assert(ng[t] == g[t2]);
            }
        }
    } else {
        assert(ng == g.update(i, (name, kept)));
        assert forall|t: int| 0 <= t < ng.len() implies versions_wf(#[trigger] ng[t].1) by {
            if t != i {
                assert(ng[t] == g[t]);
            }
        }
        assert(catalog_wf(ng));
        lemma_group_index(ng, name, i);
        assert(group_of(ng, name) == kept);
        if q != p {
            if has_version(g, name, q) {
                let j = choose|j: int| 0 <= j < group_of(g, name).len() && version_parts(#[trigger] group_of(g, name)[j].version) == q;
                vs.lemma_filter_contains(pred, j);
                let u = choose|u: int| 0 <= u < kept.len() && kept[u] == vs[j];
                assert(version_parts(group_of(ng, name)[u].version) == q);
            }
            if has_version(ng, name, q) {
                let u = choose|u: int| 0 <= u < group_of(ng, name).len() && version_parts(#[trigger] group_of(ng, name)[u].version) == q;
                crate::catalog::lemma_filter_member(vs, pred, u);
                let t = choose|t: int| 0 <= t < vs.len() && vs[t] == kept[u];
                assert(version_parts(group_of(g, name)[t].version) == q);
            }
        }
        if other != name && has_group(g, other) {
            let k = group_index(g, other);
            lemma_group_index(g, other, k);
            assert(ng[k] == g[k]);
            lemma_group_index(ng, other, k);
        }
        if other != name && !has_group(g, other) {
            assert forall|t: int| 0 <= t < ng.len() implies ng[t].0 != other by {
                if t != i {
                    assert(ng[t] == g[t]);
                }
            }
        }
    }
}

/// Replacing the versions of one group changes the total by the difference
/// of the two lengths.
proof fn lemma_total_update(g: Groups, i: int, e: (Seq<char>, Seq<TechModule>))
    requires
        0 <= i < g.len(),
    ensures
        total_modules(g.update(i, e)) == total_modules(g) - g[i].1.len() + e.1.len(),
    decreases g.len(),
{
    let ng = g.update(i, e);
    if i == g.len() - 1 {
        assert(ng.drop_last() =~= g.drop_last());
    } else {
        lemma_total_update(g.drop_last(), i, e);
        assert(ng.drop_last() =~= g.drop_last().update(i, e));
    }
}

/// A successful registration adds exactly one module to the total count.
pub proof fn law_register_counts_one_more(g: Groups, m: TechModule)
    requires
        catalog_wf(g),
        m.version.wf(),
        !has_version(g, m.name@, version_parts(m.version)),
    ensures
        total_modules(with_module(g, m)) == total_modules(g) + 1,
{
    if has_group(g, m.name@) {
        let i = group_index(g, m.name@);
        lemma_total_update(g, i, (m.name@, g[i].1.push(m)));
    } else {
        assert(g.push((m.name@, seq![m])).drop_last() =~= g);
    }
}

/// The best version for a requirement (what `resolve_best` gives) has the
/// same version as the first of all the satisfying versions, greatest first
/// (what `resolve_all` gives).
pub proof fn law_best_heads_all(vs: Seq<TechModule>, req: Seq<char>, i: int, ms: Seq<TechModule>)
    requires
        versions_wf(vs),
        is_best_index(vs, satisfies(req), i),
        models(ms).to_multiset() == models(vs.filter(satisfies(req))).to_multiset(),
        sorted_by(ms, module_le(ModuleOrder::ByVersionDescending)),
    ensures
        ms.len() > 0,
        version_order(ms[0].version, vs[i].version) == 0,
{
    let pred = satisfies(req);
    let f = vs.filter(pred);
    vs.lemma_filter_contains(pred, i);
    let u = choose|u: int| 0 <= u < f.len() && f[u] == vs[i];
    assert(models(f)[u] == vs[i]@);
    to_multiset_contains(models(f), vs[i]@);
    to_multiset_contains(models(ms), vs[i]@);
    let k = choose|k: int| 0 <= k < models(ms).len() && models(ms)[k] == vs[i]@;
    assert(ms[k].version == vs[i].version);
    assert(ms.len() > 0);
    if k > 0 {
        assert(module_le(ModuleOrder::ByVersionDescending)(ms[0], ms[k]));
    } else {
        lemma_version_order(ms[0].version, ms[0].version, ms[0].version);
    }
    assert(models(ms)[0] == ms[0]@);
    to_multiset_contains(models(ms), ms[0]@);
    to_multiset_contains(models(f), ms[0]@);
    let w = choose|w: int| 0 <= w < models(f).len() && models(f)[w] == ms[0]@;
    crate::catalog::lemma_filter_member(vs, pred, w);
    let j = choose|j: int| 0 <= j < vs.len() && vs[j] == f[w];
    assert(pred(vs[j]));
    assert(ms[0].version == vs[j].version);
    lemma_version_order(ms[0].version, vs[i].version, vs[i].version);
}

/// A module that declares no platform is compatible with every platform, and
/// its report carries no issue.
pub proof fn law_unrestricted_module_is_compatible(r: CompatibilityReport, m: TechModule, p: Platform)
    requires
        m.supported_platforms@.len() == 0,
        is_report_for(r, m, p),
    ensures
        r.compatible,
        r.issues@.len() == 0,
{
    assert(r.issues@.map_values(|s: String| s@).len() == 0);
}

/// No two modules of the list have the same version parts.
pub open spec fn distinct_versions(s: Seq<TechModule>) -> bool {
    forall|a: int, b: int|
        0 <= a < b < s.len() ==> version_parts((#[trigger] s[a]).version) != version_parts(
            (#[trigger] s[b]).version,
        )
}

/// The shape that registration gives a catalog: no group is empty, every
/// module is filed under its own name, and no two versions of a module have
/// the same parts.
pub open spec fn registry_shape(g: Groups) -> bool {
    &&& forall|i: int| 0 <= i < g.len() ==> (#[trigger] g[i]).1.len() > 0
    &&& forall|i: int, a: int|
        0 <= i < g.len() && 0 <= a < g[i].1.len() ==> (#[trigger] g[i].1[a]).name@ == g[i].0
    &&& forall|i: int| 0 <= i < g.len() ==> distinct_versions(#[trigger] g[i].1)
}

/// Filtering keeps versions distinct.
proof fn lemma_filter_distinct(s: Seq<TechModule>, pred: spec_fn(TechModule) -> bool)
    requires
        distinct_versions(s),
    ensures
        distinct_versions(s.filter(pred)),
    decreases s.len(),
{
    if s.len() > 0 {
        let rest = s.drop_last();
        let x = s.last();
        assert(s =~= rest.push(x));
        assert forall|a: int, b: int| 0 <= a < b < rest.len() implies version_parts(
            (#[trigger] rest[a]).version,
        ) != version_parts((#[trigger] rest[b]).version) by {
            assert(rest[a] == s[a] && rest[b] == s[b]);
        }
        lemma_filter_distinct(rest, pred);
        rest.lemma_filter_push(x, pred);
        if pred(x) {
            let f = rest.filter(pred);
            let nf = f.push(x);
            assert forall|a: int, b: int| 0 <= a < b < nf.len() implies version_parts(
                (#[trigger] nf[a]).version,
            ) != version_parts((#[trigger] nf[b]).version) by {
                if b == f.len() {
                    crate::catalog::lemma_filter_member(rest, pred, a);
                    let k = choose|k: int| 0 <= k < rest.len() && rest[k] == f[a];
                    assert(s[k] == rest[k]);
                    assert(s[s.len() - 1] == x);
                } else {
                    assert(nf[a] == f[a] && nf[b] == f[b]);
                }
            }
        }
    } else {
        assert(s.filter(pred) =~= s);
    }
}

/// Filtering out the one module that fails the predicate shortens the list by one.
proof fn lemma_filter_drops_one(s: Seq<TechModule>, pred: spec_fn(TechModule) -> bool, j: int)
    requires
        0 <= j < s.len(),
        !pred(s[j]),
        forall|k: int| 0 <= k < s.len() && k != j ==> pred(#[trigger] s[k]),
    ensures
        s.filter(pred).len() == s.len() - 1,
    decreases s.len(),
{
    let rest = s.drop_last();
    let x = s.last();
    assert(s =~= rest.push(x));
    rest.lemma_filter_len_push(pred, x);
    if j == s.len() - 1 {
        assert forall|k: int| 0 <= k < rest.len() implies pred(rest[k]) by {
            assert(rest[k] == s[k]);
        }
        crate::catalog::lemma_filter_all(rest, pred);
    } else {
        assert(pred(s[s.len() - 1]));
        assert forall|k: int| 0 <= k < rest.len() && k != j implies pred(#[trigger] rest[k]) by {
            assert(rest[k] == s[k]);
        }
        assert(rest[j] == s[j]);
        lemma_filter_drops_one(rest, pred, j);
    }
}

/// Removing one group lowers the total by the length of that group.
proof fn lemma_total_remove(g: Groups, i: int)
    requires
        0 <= i < g.len(),
    ensures
        total_modules(g.remove(i)) == total_modules(g) - g[i].1.len(),
    decreases g.len(),
{
    let ng = g.remove(i);
    if i == g.len() - 1 {
        assert(ng =~= g.drop_last());
    } else {
        lemma_total_remove(g.drop_last(), i);
        assert(ng.drop_last() =~= g.drop_last().remove(i));
        assert(ng.last() == g.last());
    }
}

/// Registering a module whose name and version were not registered keeps
/// the registry shape.
pub proof fn law_register_keeps_shape(g: Groups, m: TechModule)
    requires
        catalog_wf(g),
        m.version.wf(),
        registry_shape(g),
        !has_version(g, m.name@, version_parts(m.version)),
    ensures
        registry_shape(with_module(g, m)),
{
    let ng = with_module(g, m);
    let p = version_parts(m.version);
    if has_group(g, m.name@) {
        let i = group_index(g, m.name@);
        lemma_group_index(g, m.name@, i);
        let old_vs = g[i].1;
        let vs = old_vs.push(m);
        assert(ng[i] == (m.name@, vs));
        assert forall|t: int| 0 <= t < ng.len() implies distinct_versions(#[trigger] ng[t].1) by {
            if t == i {
                assert forall|a: int, b: int| 0 <= a < b < vs.len() implies version_parts(
                    (#[trigger] vs[a]).version,
                ) != version_parts((#[trigger] vs[b]).version) by {
                    if b == old_vs.len() {
                        assert(vs[a] == old_vs[a]);
                        assert(version_parts(group_of(g, m.name@)[a].version) != p);
                    } else {
                        assert(vs[a] == old_vs[a] && vs[b] == old_vs[b]);
                        assert(distinct_versions(g[i].1));
                    }
                }
            } else {
                assert(ng[t] == g[t]);
            }
        }
        assert forall|t: int, a: int| 0 <= t < ng.len() && 0 <= a < ng[t].1.len() implies (#[trigger] ng[t].1[a]).name@ == ng[t].0 by {
            if t == i {
                if a < old_vs.len() {
                    assert(ng[t].1[a] == g[t].1[a]);
                }
            } else {
                assert(ng[t] == g[t]);
            }
        }
        assert forall|t: int| 0 <= t < ng.len() implies (#[trigger] ng[t]).1.len() > 0 by {
            if t != i {
                assert(ng[t] == g[t]);
            }
        }
    } else {
        let n = g.len() as int;
        assert(ng[n] == (m.name@, seq![m]));
        assert forall|t: int| 0 <= t < ng.len() implies distinct_versions(#[trigger] ng[t].1) by {
            if t < n {
                assert(ng[t] == g[t]);
            }
        }
        assert forall|t: int, a: int| 0 <= t < ng.len() && 0 <= a < ng[t].1.len() implies (#[trigger] ng[t].1[a]).name@ == ng[t].0 by {
            if t < n {
                assert(ng[t] == g[t]);
            }
        }
        assert forall|t: int| 0 <= t < ng.len() implies (#[trigger] ng[t]).1.len() > 0 by {
            if t < n {
                assert(ng[t] == g[t]);
            }
        }
    }
}

/// Unregistering a version of a registered name keeps the registry shape.
pub proof fn law_unregister_keeps_shape(g: Groups, name: Seq<char>, p: (u64, u64, u64, Seq<char>, Seq<char>))
    requires
        catalog_wf(g),
        registry_shape(g),
        has_group(g, name),
    ensures
        registry_shape(without_version(g, name, p)),
{
    let ng = without_version(g, name, p);
    let i = group_index(g, name);
    lemma_group_index(g, name, i);
    let vs = g[i].1;
    let pred = |x: TechModule| version_parts(x.version) != p;
    let kept = vs.filter(pred);
    if kept.len() == 0 {
        assert(ng == g.remove(i));
        assert forall|t: int| 0 <= t < ng.len() implies distinct_versions(#[trigger] ng[t].1) by {
            let t2 = if t < i { t } else { t + 1 };
            assert(ng[t] == g[t2]);
        }
        assert forall|t: int, a: int| 0 <= t < ng.len() && 0 <= a < ng[t].1.len() implies (#[trigger] ng[t].1[a]).name@ == ng[t].0 by {
            let t2 = if t < i { t } else { t + 1 };
            assert(ng[t] == g[t2]);
        }
        assert forall|t: int| 0 <= t < ng.len() implies (#[trigger] ng[t]).1.len() > 0 by {
            let t2 = if t < i { t } else { t + 1 };
            assert(ng[t] == g[t2]);
        }
    } else {
        assert(ng == g.update(i, (name, kept)));
        assert(distinct_versions(vs));
        lemma_filter_distinct(vs, pred);
        assert forall|t: int| 0 <= t < ng.len() implies distinct_versions(#[trigger] ng[t].1) by {
            if t != i {
                assert(ng[t] == g[t]);
            }
        }
        assert forall|t: int, a: int| 0 <= t < ng.len() && 0 <= a < ng[t].1.len() implies (#[trigger] ng[t].1[a]).name@ == ng[t].0 by {
            if t == i {
                crate::catalog::lemma_filter_member(vs, pred, a);
                let k = choose|k: int| 0 <= k < vs.len() && vs[k] == kept[a];
                assert(g[i].1[k].name@ == g[i].0);
            } else {
                assert(ng[t] == g[t]);
            }
        }
        assert forall|t: int| 0 <= t < ng.len() implies (#[trigger] ng[t]).1.len() > 0 by {
            if t != i {
                assert(ng[t] == g[t]);
            }
        }
    }
}

/// Unregistering a registered version removes exactly one module from the
/// total count, in a catalog of the registry shape.
pub proof fn law_unregister_counts_one_less(g: Groups, name: Seq<char>, p: (u64, u64, u64, Seq<char>, Seq<char>))
    requires
        catalog_wf(g),
        registry_shape(g),
        has_version(g, name, p),
    ensures
        total_modules(without_version(g, name, p)) == total_modules(g) - 1,
{
    let vs0 = group_of(g, name);
    let j = choose|j: int| 0 <= j < vs0.len() && version_parts(#[trigger] vs0[j].version) == p;
    assert(has_group(g, name));
    let i = group_index(g, name);
    lemma_group_index(g, name, i);
    let vs = g[i].1;
    let pred = |x: TechModule| version_parts(x.version) != p;
    assert(distinct_versions(vs));
    assert forall|k: int| 0 <= k < vs.len() && k != j implies pred(#[trigger] vs[k]) by {
        if k < j {
            assert(version_parts(vs[k].version) != version_parts(vs[j].version));
        } else {
            assert(version_parts(vs[j].version) != version_parts(vs[k].version));
        }
    }
    lemma_filter_drops_one(vs, pred, j);
    let kept = vs.filter(pred);
    if kept.len() == 0 {
        lemma_total_remove(g, i);
    } else {
        lemma_total_update(g, i, (name, kept));
    }
}

/// Registering modules one after the other into an empty catalog, none
/// duplicating an earlier one (as `from_github_repos` does), gives a catalog
/// of the registry shape.
pub proof fn law_registered_catalog_has_shape(ms: Seq<TechModule>)
    requires
        versions_wf(ms),
        !has_duplicate(ms),
    ensures
        catalog_wf(catalog_of(ms)),
        registry_shape(catalog_of(ms)),
    decreases ms.len(),
{
    if ms.len() > 0 {
        let rest = ms.drop_last();
        let m = ms.last();
        assert forall|t: int| 0 <= t < rest.len() implies (#[trigger] rest[t]).version.wf() by {
            assert(rest[t] == ms[t]);
        }
        assert(!has_duplicate(rest)) by {
            if has_duplicate(rest) {
                let (a, b) = choose|a: int, b: int|
                    0 <= a < b < rest.len() && #[trigger] rest[a].name@ == #[trigger] rest[b].name@
                        && version_parts(rest[a].version) == version_parts(rest[b].version);
                assert(ms[a] == rest[a] && ms[b] == rest[b]);
                assert(ms[a].name@ == ms[b].name@);
            }
        }
        law_registered_catalog_has_shape(rest);
        lemma_catalog_of_has_version(rest, m.name@, version_parts(m.version));
        assert(!has_version(catalog_of(rest), m.name@, version_parts(m.version))) by {
            if has_version(catalog_of(rest), m.name@, version_parts(m.version)) {
                let k = choose|k: int|
                    0 <= k < rest.len() && (#[trigger] rest[k]).name@ == m.name@ && version_parts(
                        rest[k].version,
                    ) == version_parts(m.version);
                assert(ms[k] == rest[k]);
                assert(ms[ms.len() - 1] == m);
                assert(ms[k].name@ == ms[ms.len() - 1].name@);
            }
        }
        law_register_keeps_shape(catalog_of(rest), m);
        lemma_with_module(catalog_of(rest), m, m.name@, version_parts(m.version));
    }
}

/// Every module of a group is among all the modules of the catalog.
proof fn lemma_all_modules_contains(g: Groups, i: int, j: int)
    requires
        0 <= i < g.len(),
        0 <= j < g[i].1.len(),
    ensures
        all_modules(g).contains(g[i].1[j]),
    decreases g.len(),
{
    let prev = g.drop_last();
    if i == g.len() - 1 {
        let k = all_modules(prev).len() + j;
        assert(all_modules(g)[k] == g[i].1[j]);
    } else {
        assert(prev[i] == g[i]);
        lemma_all_modules_contains(prev, i, j);
        let k = choose|k: int| 0 <= k < all_modules(prev).len() && all_modules(prev)[k] == g[i].1[j];
        assert(all_modules(g)[k] == all_modules(prev)[k]);
    }
}

/// A search for the name of a registered module finds that module (what
/// `search` gives holds the modules that match the lowercased query).
pub proof fn law_search_finds_by_name(g: Groups, i: int, j: int)
    requires
        0 <= i < g.len(),
        0 <= j < g[i].1.len(),
    ensures
        models(all_modules(g).filter(matching(unicode_lowercase(g[i].1[j].name@)))).contains(
            g[i].1[j]@,
        ),
{
    let m = g[i].1[j];
    let q = unicode_lowercase(m.name@);
    assert(q.subrange(0, q.len() as int) =~= q);
    assert(occurs_at(q, q, 0));
    assert(matching(q)(m));
    lemma_all_modules_contains(g, i, j);
    let all = all_modules(g);
    let k = choose|k: int| 0 <= k < all.len() && all[k] == m;
    all.lemma_filter_contains(matching(q), k);
    let f = all.filter(matching(q));
    let u = choose|u: int| 0 <= u < f.len() && f[u] == m;
    assert(models(f)[u] == m@);
}

/// Two lists of names, each sorted in code point order and holding the same
/// names equally often, are the same list.
proof fn lemma_sorted_names_unique(a: Seq<Seq<char>>, b: Seq<Seq<char>>)
    requires
        a.to_multiset() == b.to_multiset(),
        forall|i: int, j: int| 0 <= i < j < a.len() ==> lex_order(a[i], a[j]) <= 0,
        forall|i: int, j: int| 0 <= i < j < b.len() ==> lex_order(b[i], b[j]) <= 0,
    ensures
        a == b,
    decreases a.len(),
{
    broadcast use vstd::multiset::group_multiset_axioms;

    to_multiset_len(a);
    to_multiset_len(b);
    if a.len() == 0 {
        assert(a =~= b);
    } else {
        let n = a.len() - 1;
        let x = a[n];
        let y = b[n];
        assert(b.contains(y)) by {
            assert(b[n] == y);
        }
        to_multiset_contains(b, y);
        to_multiset_contains(a, y);
        let i = choose|i: int| 0 <= i < a.len() && a[i] == y;
        if i == n {
            lemma_lex_order_equal(y, x);
        }
        assert(lex_order(y, x) <= 0);
        assert(a.contains(x)) by {
            assert(a[n] == x);
        }
        to_multiset_contains(a, x);
        to_multiset_contains(b, x);
        let k = choose|k: int| 0 <= k < b.len() && b[k] == x;
        if k == n {
            lemma_lex_order_equal(x, y);
        }
        assert(lex_order(x, y) <= 0);
        lemma_lex_order_antisymmetric(x, y);
        lemma_lex_order_equal(x, y);
        assert(x == y);
        let da = a.drop_last();
        let db = b.drop_last();
        assert(a =~= da.push(x));
        assert(b =~= db.push(y));
        to_multiset_build(da, x);
        to_multiset_build(db, y);
        assert(da.to_multiset() =~= a.to_multiset().remove(x));
        assert(db.to_multiset() =~= b.to_multiset().remove(y));
        lemma_sorted_names_unique(da, db);
        assert(a =~= b);
    }
}

/// Where no group is empty, the latest modules of the groups are, group by
/// group, the latest of each.
proof fn lemma_latest_of_groups(g: Groups)
    requires
        forall|i: int| 0 <= i < g.len() ==> (#[trigger] g[i]).1.len() > 0,
    ensures
        latest_of_groups(g).len() == g.len(),
        forall|i: int| 0 <= i < g.len() ==> #[trigger] latest_of_groups(g)[i] == latest_in(g[i].1),
    decreases g.len(),
{
    if g.len() > 0 {
        let prev = g.drop_last();
        assert forall|i: int| 0 <= i < prev.len() implies (#[trigger] prev[i]).1.len() > 0 by {
            assert(prev[i] == g[i]);
        }
        lemma_latest_of_groups(prev);
        assert(g.last().1.len() > 0);
        assert forall|i: int| 0 <= i < g.len() implies #[trigger] latest_of_groups(g)[i] == latest_in(g[i].1) by {
            if i < prev.len() {
                assert(prev[i] == g[i]);
            }
        }
    }
}

/// In a catalog of the registry shape, the latest module of a group carries
/// the group's name.
proof fn lemma_latest_in_name(g: Groups, k: int)
    requires
        catalog_wf(g),
        registry_shape(g),
        0 <= k < g.len(),
    ensures
        latest_in(g[k].1).name@ == g[k].0,
{
    assert(versions_wf(g[k].1));
    assert(g[k].1.len() > 0);
    lemma_latest_exists(g[k].1);
    let i = choose|i: int| is_latest_index(g[k].1, i);
    assert(g[k].1[i].name@ == g[k].0);
}

/// In a catalog of the registry shape, what `list_all` gives lines up with
/// what `module_names` gives: at each position stands the latest version of
/// the module whose name stands there.
pub proof fn law_list_all_follows_module_names(g: Groups, ms: Seq<TechModule>, names: Seq<String>)
    requires
        catalog_wf(g),
        registry_shape(g),
        models(ms).to_multiset() == models(latest_of_groups(g)).to_multiset(),
        sorted_by(ms, module_le(ModuleOrder::ByName)),
        strings_view(names).to_multiset() == group_names(g).to_multiset(),
        sorted_by(names, string_le()),
    ensures
        ms.len() == names.len(),
        forall|i: int|
            0 <= i < ms.len() ==> (#[trigger] ms[i]).name@ == names[i]@ && ms[i]@ == latest_module(
                g,
                names[i]@,
            )@,
{
    broadcast use vstd::multiset::group_multiset_axioms;

    let l = latest_of_groups(g);
    lemma_latest_of_groups(g);
    let name_of = |mm: ModuleModel| mm.name;
    lemma_map_permutation(models(ms), models(l), name_of);
    let k1 = models(ms).map_values(name_of);
    assert forall|i: int| 0 <= i < g.len() implies #[trigger] models(l).map_values(name_of)[i] == group_names(g)[i] by {
        lemma_latest_in_name(g, i);
        assert(l[i] == latest_in(g[i].1));
    }
    assert(models(l).map_values(name_of) =~= group_names(g));
    let k2 = strings_view(names);
    assert forall|i: int, j: int| 0 <= i < j < k1.len() implies lex_order(k1[i], k1[j]) <= 0 by {
        assert(module_le(ModuleOrder::ByName)(ms[i], ms[j]));
        assert(k1[i] == ms[i].name@ && k1[j] == ms[j].name@);
    }
    assert forall|i: int, j: int| 0 <= i < j < k2.len() implies lex_order(k2[i], k2[j]) <= 0 by {
        assert(string_le()(names[i], names[j]));
    }
    lemma_sorted_names_unique(k1, k2);
    assert forall|i: int| 0 <= i < ms.len() implies (#[trigger] ms[i]).name@ == names[i]@ && ms[i]@
        == latest_module(g, names[i]@)@ by {
        assert(k1[i] == k2[i]);
        assert(models(ms)[i] == ms[i]@);
        to_multiset_contains(models(ms), ms[i]@);
        to_multiset_contains(models(l), ms[i]@);
        let k = choose|k: int| 0 <= k < models(l).len() && models(l)[k] == ms[i]@;
        lemma_latest_in_name(g, k);
        assert(l[k] == latest_in(g[k].1));
        lemma_group_index(g, names[i]@, k);
    }
}

/// Where a module's versions are distinct, all the versions that satisfy a
/// requirement, greatest first (what `resolve_all` gives), start with the
/// best one (what `resolve_best` gives) and strictly descend.
pub proof fn law_all_versions_descend_from_best(
    vs: Seq<TechModule>,
    req: Seq<char>,
    i: int,
    ms: Seq<TechModule>,
)
    requires
        versions_wf(vs),
        distinct_versions(vs),
        is_best_index(vs, satisfies(req), i),
        models(ms).to_multiset() == models(vs.filter(satisfies(req))).to_multiset(),
        sorted_by(ms, module_le(ModuleOrder::ByVersionDescending)),
    ensures
        ms.len() > 0,
        ms[0]@ == vs[i]@,
        forall|a: int, b: int| 0 <= a < b < ms.len() ==> version_order(ms[a].version, ms[b].version) > 0,
{
    broadcast use vstd::multiset::group_multiset_axioms;

    let pred = satisfies(req);
    let f = vs.filter(pred);
    law_best_heads_all(vs, req, i, ms);
    lemma_filter_distinct(vs, pred);
    // Each model of `ms` is that of some module of `vs`.
    assert forall|a: int| 0 <= a < ms.len() implies exists|j: int|
        0 <= j < vs.len() && #[trigger] vs[j]@ == (#[trigger] ms[a])@ by {
        assert(models(ms)[a] == ms[a]@);
        to_multiset_contains(models(ms), ms[a]@);
        to_multiset_contains(models(f), ms[a]@);
        let w = choose|w: int| 0 <= w < models(f).len() && models(f)[w] == ms[a]@;
        crate::catalog::lemma_filter_member(vs, pred, w);
        let j = choose|j: int| 0 <= j < vs.len() && vs[j] == f[w];
        assert(vs[j]@ == ms[a]@);
    }
    // The head is the best module itself.
    let j0 = choose|j: int| 0 <= j < vs.len() && #[trigger] vs[j]@ == ms[0]@;
    lemma_version_order(ms[0].version, vs[i].version, vs[i].version);
    if j0 != i {
        if j0 < i {
            assert(version_parts(vs[j0].version) != version_parts(vs[i].version));
        } else {
            assert(version_parts(vs[i].version) != version_parts(vs[j0].version));
        }
    }
    // The models of `ms` are distinct, as those of `f` are.
    assert forall|u: int, w: int| 0 <= u < f.len() && 0 <= w < f.len() && u != w implies models(f)[u]
        != models(f)[w] by {
        if u < w {
            assert(version_parts(f[u].version) != version_parts(f[w].version));
        } else {
            assert(version_parts(f[w].version) != version_parts(f[u].version));
        }
    }
    assert(models(f).no_duplicates());
    models(f).lemma_multiset_has_no_duplicates();
    models(ms).lemma_multiset_has_no_duplicates_conv();
    assert forall|a: int, b: int| 0 <= a < b < ms.len() implies version_order(ms[a].version, ms[b].version) > 0 by {
        assert(module_le(ModuleOrder::ByVersionDescending)(ms[a], ms[b]));
        lemma_version_order(ms[a].version, ms[b].version, ms[b].version);
        if version_order(ms[a].version, ms[b].version) == 0 {
            let ja = choose|j: int| 0 <= j < vs.len() && #[trigger] vs[j]@ == ms[a]@;
            let jb = choose|j: int| 0 <= j < vs.len() && #[trigger] vs[j]@ == ms[b]@;
            if ja < jb {
                assert(version_parts(vs[ja].version) != version_parts(vs[jb].version));
            } else if jb < ja {
                assert(version_parts(vs[jb].version) != version_parts(vs[ja].version));
            }
            assert(models(ms)[a] == models(ms)[b]);
        }
    }
}

/// The number of registered versions of the names of `names`, added up.
pub open spec fn versions_count(g: Groups, names: Seq<Seq<char>>) -> int
    decreases names.len(),
{
    if names.len() == 0 {
        0
    } else {
        versions_count(g, names.drop_last()) + group_of(g, names.last()).len()
    }
}

/// Taking one name out of the list takes its count out of the sum.
proof fn lemma_versions_count_remove(g: Groups, names: Seq<Seq<char>>, k: int)
    requires
        0 <= k < names.len(),
    ensures
        versions_count(g, names) == versions_count(g, names.remove(k)) + group_of(g, names[k]).len(),
    decreases names.len(),
{
    let n = names.len() - 1;
    if k == n {
        assert(names.remove(k) =~= names.drop_last());
    } else {
        lemma_versions_count_remove(g, names.drop_last(), k);
        let r = names.remove(k);
        assert(r.drop_last() =~= names.drop_last().remove(k));
        assert(r.last() == names.last());
        assert(names.drop_last()[k] == names[k]);
    }
}

/// The sum does not depend on the order of the names.
proof fn lemma_versions_count_permutation(g: Groups, a: Seq<Seq<char>>, b: Seq<Seq<char>>)
    requires
        a.to_multiset() == b.to_multiset(),
    ensures
        versions_count(g, a) == versions_count(g, b),
    decreases a.len(),
{
    broadcast use vstd::multiset::group_multiset_axioms;

    to_multiset_len(a);
    to_multiset_len(b);
    if a.len() > 0 {
        let x = a.last();
        let da = a.drop_last();
        assert(a =~= da.push(x));
        to_multiset_build(da, x);
        assert(a.contains(x)) by {
            assert(a[a.len() - 1] == x);
        }
        to_multiset_contains(a, x);
        to_multiset_contains(b, x);
        let k = choose|k: int| 0 <= k < b.len() && b[k] == x;
        vstd::seq_lib::to_multiset_remove(b, k);
        assert(da.to_multiset() =~= b.remove(k).to_multiset());
        lemma_versions_count_permutation(g, da, b.remove(k));
        lemma_versions_count_remove(g, b, k);
    } else {
        assert(b.len() == 0);
    }
}

/// Summing over the group names in catalog order gives the total count.
proof fn lemma_versions_count_groups(g: Groups, n: int)
    requires
        catalog_wf(g),
        0 <= n <= g.len(),
    ensures
        versions_count(g, group_names(g).take(n)) == total_modules(g.take(n)),
    decreases n,
{
    if n > 0 {
        lemma_versions_count_groups(g, n - 1);
        assert(group_names(g).take(n).drop_last() =~= group_names(g).take(n - 1));
        lemma_group_index(g, g[n - 1].0, n - 1);
        crate::catalog::lemma_total_prefix(g, n);
    } else {
        assert(g.take(0) =~= Seq::<(Seq<char>, Seq<TechModule>)>::empty());
    }
}

/// The total count (what `total_count` gives) is the number of versions of
/// each name that `module_names` gives, added up.
pub proof fn law_total_count_over_names(g: Groups, names: Seq<String>)
    requires
        catalog_wf(g),
        strings_view(names).to_multiset() == group_names(g).to_multiset(),
    ensures
        total_modules(g) == versions_count(g, strings_view(names)),
{
    lemma_versions_count_groups(g, g.len() as int);
    assert(group_names(g).take(g.len() as int) =~= group_names(g));
    assert(g.take(g.len() as int) =~= g);
    lemma_versions_count_permutation(g, strings_view(names), group_names(g));
}

/// A dependency with a requirement is met exactly when some registered
/// version, at any position, of the module it names satisfies the
/// requirement (a name without any version is left to the missing-module check).
pub proof fn law_requirement_met_by_any_version(g: Groups, dep: Seq<char>, q: Seq<char>)
    requires
        dep_requirement(dep) == Some(q),
        has_latest(g, dep_name(dep)),
    ensures
        requirement_met(g, dep) <==> exists|j: int|
            0 <= j < group_of(g, dep_name(dep)).len() && #[trigger] semver_req_matches(
                q,
                group_of(g, dep_name(dep))[j].version.major,
                group_of(g, dep_name(dep))[j].version.minor,
                group_of(g, dep_name(dep))[j].version.patch,
                group_of(g, dep_name(dep))[j].version.pre@,
                group_of(g, dep_name(dep))[j].version.build@,
            ),
{
    let vs = group_of(g, dep_name(dep));
    if requirement_met(g, dep) {
        let j = choose|j: int| 0 <= j < vs.len() && satisfies(q)(#[trigger] vs[j]);
        assert(satisfies(q)(vs[j]));
    }
    if exists|j: int|
        0 <= j < vs.len() && #[trigger] semver_req_matches(
            q,
            vs[j].version.major,
            vs[j].version.minor,
            vs[j].version.patch,
            vs[j].version.pre@,
            vs[j].version.build@,
        ) {
        let j = choose|j: int|
            0 <= j < vs.len() && #[trigger] semver_req_matches(
                q,
                vs[j].version.major,
                vs[j].version.minor,
                vs[j].version.patch,
                vs[j].version.pre@,
                vs[j].version.build@,
            );
        assert(satisfies(q)(vs[j]));
    }
}

/// A conflict met by the dependency walk names a registered module none of
/// whose versions satisfies the requirement.
proof fn lemma_walk_conflict(g: Groups, name: Seq<char>, done: Seq<Seq<char>>, path: Seq<Seq<char>>)
    ensures
        walk(g, name, done, path) matches WalkEnd::Conflict(d, q) ==> {
            &&& has_latest(g, d)
            &&& forall|j: int| 0 <= j < group_of(g, d).len() ==> !satisfies(q)(#[trigger] group_of(g, d)[j])
        },
    decreases g.len() - path.len(), 0int, 0int,
{
    if !done.contains(name) && !path.contains(name) && has_latest(g, name) && path.len() < g.len() {
        lemma_walk_deps_conflict(g, latest_module(g, name)@.dependencies, 0, done, path.push(name));
    }
}

/// A conflict met by the walk of dependencies names a registered module none
/// of whose versions satisfies the requirement.
proof fn lemma_walk_deps_conflict(
    g: Groups,
    deps: Seq<Seq<char>>,
    k: int,
    done: Seq<Seq<char>>,
    path: Seq<Seq<char>>,
)
    ensures
        walk_deps(g, deps, k, done, path) matches WalkEnd::Conflict(d, q) ==> {
            &&& has_latest(g, d)
            &&& forall|j: int| 0 <= j < group_of(g, d).len() ==> !satisfies(q)(#[trigger] group_of(g, d)[j])
        },
    decreases g.len() - path.len(), 1int, deps.len() - k,
{
    if 0 <= k < deps.len() {
        if requirement_met(g, deps[k]) {
            lemma_walk_conflict(g, dep_name(deps[k]), done, path);
            match walk(g, dep_name(deps[k]), done, path) {
                WalkEnd::Finished(d) => {
                    lemma_walk_deps_conflict(g, deps, k + 1, d, path);
                },
                _ => {},
            }
        }
    }
}

/// Resolution reports a version conflict only where no registered version of
/// the dependency satisfies its requirement: where `resolve` fails with
/// `VersionConflict` (the walk ends in `Conflict(d, q)`), `d` has registered
/// versions and none of them, at any position, satisfies `q`.
pub proof fn law_version_conflict_only_when_unsatisfiable(g: Groups, root: Seq<char>)
    ensures
        walk(g, root, Seq::empty(), Seq::empty()) matches WalkEnd::Conflict(d, q) ==> {
            &&& has_latest(g, d)
            &&& forall|j: int|
                0 <= j < group_of(g, d).len() ==> !#[trigger] semver_req_matches(
                    q,
                    group_of(g, d)[j].version.major,
                    group_of(g, d)[j].version.minor,
                    group_of(g, d)[j].version.patch,
                    group_of(g, d)[j].version.pre@,
                    group_of(g, d)[j].version.build@,
                )
        },
{
    lemma_walk_conflict(g, root, Seq::empty(), Seq::empty());
    if let WalkEnd::Conflict(d, q) = walk(g, root, Seq::empty(), Seq::empty()) {
        assert forall|j: int| 0 <= j < group_of(g, d).len() implies !#[trigger] semver_req_matches(
            q,
            group_of(g, d)[j].version.major,
            group_of(g, d)[j].version.minor,
            group_of(g, d)[j].version.patch,
            group_of(g, d)[j].version.pre@,
            group_of(g, d)[j].version.build@,
        ) by {
            assert(!satisfies(q)(group_of(g, d)[j]));
        }
    }
}

/// Cycle detection follows the module names that dependency strings designate
/// (the part before '@' where a requirement follows): `b` is a successor of
/// `a` exactly when some dependency of the first registered version of `a`
/// names `b` and `b` is registered.
pub proof fn law_cycle_edges_are_dependency_names(g: Groups, a: Seq<char>, b: Seq<char>)
    ensures
        cycle_edge(g)(a, b) <==> {
            &&& group_of(g, a).len() > 0
            &&& has_group(g, b)
            &&& exists|i: int|
                0 <= i < group_of(g, a)[0]@.dependencies.len() && dep_name(
                    #[trigger] group_of(g, a)[0]@.dependencies[i],
                ) == b
        },
{
    let deps = group_of(g, a)[0]@.dependencies;
    let names = deps.map_values(|d: Seq<char>| dep_name(d));
    if cycle_edge(g)(a, b) {
        let i = choose|i: int| 0 <= i < names.len() && names[i] == b;
        assert(dep_name(deps[i]) == b);
    }
    if group_of(g, a).len() > 0 && has_group(g, b) && exists|i: int|
        0 <= i < deps.len() && dep_name(#[trigger] deps[i]) == b {
        let i = choose|i: int| 0 <= i < deps.len() && dep_name(#[trigger] deps[i]) == b;
        assert(names[i] == b);
        assert(first_deps(g, a).contains(b));
    }
}

/// The dependency tree (what `dependency_tree` gives on success) is closed
/// under the names it records: every recorded dependency name that is
/// registered is itself in the tree.
pub proof fn law_dependency_tree_is_closed(g: Groups, root: Seq<char>, t: Seq<(Seq<char>, Seq<Seq<char>>)>)
    requires
        forall|x: Seq<char>| tree_keys(t).contains(x) <==> reaches(tree_edge(g), root, x),
        forall|i: int| 0 <= i < t.len() ==> has_latest(g, #[trigger] t[i].0) && t[i].1 == latest_deps(g, t[i].0),
    ensures
        forall|i: int, d: Seq<char>|
            0 <= i < t.len() && #[trigger] t[i].1.contains(d) && has_group(g, d) ==> tree_keys(t).contains(d),
{
    assert forall|i: int, d: Seq<char>|
        0 <= i < t.len() && #[trigger] t[i].1.contains(d) && has_group(g, d) implies tree_keys(t).contains(d) by {
        assert(tree_keys(t)[i] == t[i].0);
        assert(tree_keys(t).contains(t[i].0));
        assert(has_latest(g, t[i].0) && t[i].1 == latest_deps(g, t[i].0));
        assert(tree_edge(g)(t[i].0, d));
        lemma_reaches_step(tree_edge(g), root, t[i].0, d);
    }
}

/// The dependency tree follows the module names that dependency strings
/// designate: a registered name that the latest version of a registered
/// module depends on (through `name` or `name@requirement`) is a successor.
pub proof fn law_tree_edges_are_dependency_names(g: Groups, a: Seq<char>, i: int)
    requires
        has_latest(g, a),
        0 <= i < latest_module(g, a)@.dependencies.len(),
        has_group(g, dep_name(latest_module(g, a)@.dependencies[i])),
    ensures
        tree_edge(g)(a, dep_name(latest_module(g, a)@.dependencies[i])),
        load_edge(g)(a, dep_name(latest_module(g, a)@.dependencies[i])),
{
    let deps = latest_module(g, a)@.dependencies;
    assert(latest_deps(g, a)[i] == dep_name(deps[i]));
}

/// Search ignores case in every field: a registered module whose lowercased
/// name, description, one of its lowercased tags or one of its lowercased
/// capabilities contains the lowercased query is among what `search` finds.
pub proof fn law_search_ignores_case(g: Groups, i: int, j: int, query: Seq<char>)
    requires
        0 <= i < g.len(),
        0 <= j < g[i].1.len(),
        ({
            let m = g[i].1[j];
            let q = unicode_lowercase(query);
            ||| has_substring(unicode_lowercase(m.name@), q)
            ||| has_substring(unicode_lowercase(m.description@), q)
            ||| exists|k: int| 0 <= k < m.tags@.len() && has_substring(unicode_lowercase((#[trigger] m.tags@[k])@), q)
            ||| exists|k: int|
                0 <= k < m.capabilities@.len() && has_substring(unicode_lowercase((#[trigger] m.capabilities@[k])@), q)
        }),
    ensures
        models(all_modules(g).filter(matching(unicode_lowercase(query)))).contains(g[i].1[j]@),
{
    let m = g[i].1[j];
    let q = unicode_lowercase(query);
    if exists|k: int| 0 <= k < m.tags@.len() && has_substring(unicode_lowercase((#[trigger] m.tags@[k])@), q) {
        let k = choose|k: int| 0 <= k < m.tags@.len() && has_substring(unicode_lowercase((#[trigger] m.tags@[k])@), q);
        assert(m@.tags[k] == m.tags@[k]@);
    }
    if exists|k: int|
        0 <= k < m.capabilities@.len() && has_substring(unicode_lowercase((#[trigger] m.capabilities@[k])@), q) {
        let k = choose|k: int|
            0 <= k < m.capabilities@.len() && has_substring(unicode_lowercase((#[trigger] m.capabilities@[k])@), q);
        assert(m@.capabilities[k] == m.capabilities@[k]@);
    }
    assert(matching(q)(m));
    lemma_all_modules_contains(g, i, j);
    let all = all_modules(g);
    let k = choose|k: int| 0 <= k < all.len() && all[k] == m;
    all.lemma_filter_contains(matching(q), k);
    let f = all.filter(matching(q));
    let u = choose|u: int| 0 <= u < f.len() && f[u] == m;
    assert(models(f)[u] == m@);
}

/// A module is compatible with a platform exactly when it declares no
/// platform or declares that one, at any position; it then carries no issue,
/// and otherwise one.
pub proof fn law_compatible_iff_declared(r: CompatibilityReport, m: TechModule, p: Platform)
    requires
        is_report_for(r, m, p),
    ensures
        r.compatible <==> (m.supported_platforms@.len() == 0 || exists|i: int|
            0 <= i < m.supported_platforms@.len() && #[trigger] m.supported_platforms@[i] == p),
        r.compatible <==> r.issues@.len() == 0,
        !r.compatible ==> r.issues@.len() == 1,
{
    assert(r.issues@.map_values(|s: String| s@).len() == r.issues@.len());
    if exists|i: int| 0 <= i < m.supported_platforms@.len() && #[trigger] m.supported_platforms@[i] == p {
        let i = choose|i: int| 0 <= i < m.supported_platforms@.len() && #[trigger] m.supported_platforms@[i] == p;
        assert(m.supported_platforms@.contains(p));
    }
}

/// The load graph and the dependency-tree graph have no other edges than
/// the names that dependency strings of latest versions designate: where `b`
/// is a successor of `a`, `a` has a latest version one of whose dependencies
/// names `b` (and, in the tree, `b` is registered).
pub proof fn law_graph_edges_only_dependency_names(g: Groups, a: Seq<char>, b: Seq<char>)
    ensures
        load_edge(g)(a, b) ==> has_latest(g, a) && exists|i: int|
            0 <= i < latest_module(g, a)@.dependencies.len() && dep_name(
                #[trigger] latest_module(g, a)@.dependencies[i],
            ) == b,
        tree_edge(g)(a, b) ==> has_group(g, b) && load_edge(g)(a, b),
{
    if load_edge(g)(a, b) {
        let names = latest_deps(g, a);
        let i = choose|i: int| 0 <= i < names.len() && names[i] == b;
        assert(dep_name(latest_module(g, a)@.dependencies[i]) == b);
    }
}

/// Search finds only what matches, ignoring case: every module it finds is a
/// registered module whose lowercased name, description, one of its
/// lowercased tags or one of its lowercased capabilities contains the
/// lowercased query.
pub proof fn law_search_finds_only_matches(g: Groups, query: Seq<char>, mm: ModuleModel)
    requires
        models(all_modules(g).filter(matching(unicode_lowercase(query)))).contains(mm),
    ensures
        exists|m: TechModule|
            #![trigger all_modules(g).contains(m)]
            {
                let q = unicode_lowercase(query);
                &&& all_modules(g).contains(m)
                &&& m@ == mm
                &&& {
                    ||| has_substring(unicode_lowercase(m.name@), q)
                    ||| has_substring(unicode_lowercase(m.description@), q)
                    ||| exists|k: int|
                        0 <= k < m.tags@.len() && has_substring(unicode_lowercase((#[trigger] m.tags@[k])@), q)
                    ||| exists|k: int|
                        0 <= k < m.capabilities@.len() && has_substring(
                            unicode_lowercase((#[trigger] m.capabilities@[k])@),
                            q,
                        )
                }
            },
{
    let q = unicode_lowercase(query);
    let all = all_modules(g);
    let f = all.filter(matching(q));
    let u = choose|u: int| 0 <= u < models(f).len() && models(f)[u] == mm;
    crate::catalog::lemma_filter_member(all, matching(q), u);
    let m = f[u];
    assert(m@ == mm);
    assert(matching(q)(m));
    if crate::catalog::any_contains(m@.tags, q) {
        let k = choose|k: int| 0 <= k < m@.tags.len() && has_substring(unicode_lowercase(m@.tags[k]), q);
        assert(m@.tags[k] == m.tags@[k]@);
    }
    if crate::catalog::any_contains(m@.capabilities, q) {
        let k = choose|k: int|
            0 <= k < m@.capabilities.len() && has_substring(unicode_lowercase(m@.capabilities[k]), q);
        assert(m@.capabilities[k] == m.capabilities@[k]@);
    }
    assert(all.contains(m));
}

} // verus!
