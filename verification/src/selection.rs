//! Choosing registered versions of a module that satisfy a requirement.

use vstd::prelude::*;
use crate::catalog::{Catalog, has_group, group_of, models};
use crate::error::CatalogError;
use crate::module::TechModule;
use crate::sort::{sort_modules, ModuleOrder, module_le, sorted_by, versions_wf, lemma_map_permutation};
use crate::version::{version_order, lemma_version_order, semver_req_matches, semver_req_parses,
    semver_precedence, parse_semver_req, semver_req_error, VersionRequirement};

verus! {

/// The modules whose version satisfies the requirement text `req`.
pub open spec fn satisfies(req: Seq<char>) -> spec_fn(TechModule) -> bool {
    |m: TechModule|
        semver_req_matches(req, m.version.major, m.version.minor, m.version.patch, m.version.pre@, m.version.build@)
}

/// `vs[i]` satisfies `pred` with the greatest version, and is the first such.
pub open spec fn is_best_index(vs: Seq<TechModule>, pred: spec_fn(TechModule) -> bool, i: int) -> bool {
    &&& 0 <= i < vs.len()
    &&& pred(vs[i])
    &&& forall|j: int| 0 <= j < vs.len() && pred(#[trigger] vs[j]) ==> version_order(vs[j].version, vs[i].version) <= 0
    &&& forall|j: int| 0 <= j < i && pred(#[trigger] vs[j]) ==> version_order(vs[j].version, vs[i].version) < 0
}

/// The unit that gathers version selection.
pub struct VersionResolver;

/// The message of a refused requirement: `invalid version req '<req>': <detail>`.
pub open spec fn invalid_req_text(req: Seq<char>, detail: Seq<char>) -> Seq<char> {
    "invalid version req '"@ + req + "': "@ + detail
}

/// The message of a refused requirement, with `semver`'s own message as detail.
fn invalid_req_message(req: &str, detail: &str) -> (r: String)
    ensures
        r@ == invalid_req_text(req@, detail@),
{
    let mut s = String::from_str("invalid version req '");
    s.append(req);
    s.append("': ");
    s.append(detail);
    s
}

/// Parses a requirement, and finds the versions of the module; the errors of
/// `resolve_best` and `resolve_all`.
fn requirement_and_versions<'a>(module_name: &str, version_req: &str, catalog: &'a Catalog) -> (r: Result<(VersionRequirement, &'a Vec<TechModule>), CatalogError>)
    ensures
        !semver_req_parses(version_req@) ==> (r matches Err(CatalogError::ParseError(msg)) && msg@
            == invalid_req_text(version_req@, semver_req_error(version_req@)->0)),
        semver_req_parses(version_req@) && !has_group(catalog@, module_name@) ==> (r matches Err(
            CatalogError::ModuleNotFound(n),
        ) && n@ == module_name@),
        semver_req_parses(version_req@) && has_group(catalog@, module_name@) ==> (r matches Ok(
            (q, vs),
        ) && q@ == version_req@ && vs@ == group_of(catalog@, module_name@)),
{
    let q = match parse_semver_req(version_req) {
        Ok(q) => q,
        Err(e) => {
            return Err(CatalogError::ParseError(invalid_req_message(version_req, e.as_str())));
        },
    };
    match catalog.versions_of(module_name) {
        Some(vs) => Ok((q, vs)),
        None => Err(CatalogError::ModuleNotFound(String::from_str(module_name))),
    }
}

/// `vs[i]` is marked and has the greatest version among the marked modules,
/// and is the first such.
pub open spec fn is_best_marked(vs: Seq<TechModule>, marked: Seq<bool>, i: int) -> bool {
    &&& 0 <= i < vs.len()
    &&& marked[i]
    &&& forall|j: int|
        0 <= j < vs.len() && #[trigger] marked[j] ==> version_order(vs[j].version, vs[i].version) <= 0
    &&& forall|j: int|
        0 <= j < i && #[trigger] marked[j] ==> version_order(vs[j].version, vs[i].version) < 0
}

/// The marked modules of `vs`, in order.
pub open spec fn marked_of(vs: Seq<TechModule>, marked: Seq<bool>) -> Seq<TechModule>
    decreases vs.len(),
{
    if vs.len() == 0 {
        Seq::empty()
    } else if marked[vs.len() - 1] {
        marked_of(vs.drop_last(), marked.drop_last()).push(vs.last())
    } else {
        marked_of(vs.drop_last(), marked.drop_last())
    }
}

/// Marking each module by a predicate, the marked modules are those that
/// the predicate keeps.
proof fn lemma_marked_of_filter(vs: Seq<TechModule>, marked: Seq<bool>, pred: spec_fn(TechModule) -> bool)
    requires
        marked.len() == vs.len(),
        forall|j: int| 0 <= j < vs.len() ==> marked[j] == pred(#[trigger] vs[j]),
    ensures
        marked_of(vs, marked) == vs.filter(pred),
    decreases vs.len(),
{
    if vs.len() == 0 {
        assert(vs.filter(pred) =~= Seq::<TechModule>::empty());
    } else {
        let dv = vs.drop_last();
        let dm = marked.drop_last();
        assert forall|j: int| 0 <= j < dv.len() implies dm[j] == pred(#[trigger] dv[j]) by {
            assert(dv[j] == vs[j]);
        }
        lemma_marked_of_filter(dv, dm, pred);
        assert(vs =~= dv.push(vs.last()));
        dv.lemma_filter_push(vs.last(), pred);
        assert(marked[vs.len() - 1] == pred(vs[vs.len() - 1]));
    }
}

/// Whether each module satisfies the requirement, in order.
fn requirement_marks(q: &VersionRequirement, vs: &Vec<TechModule>) -> (r: Vec<bool>)
    requires
        versions_wf(vs@),
    ensures
        r@.len() == vs@.len(),
        forall|j: int| 0 <= j < vs@.len() ==> r@[j] == satisfies(q@)(#[trigger] vs@[j]),
{
    let mut marks: Vec<bool> = Vec::new();
    let mut i: usize = 0;
    while i < vs.len()
        invariant
            i <= vs@.len(),
            versions_wf(vs@),
            marks@.len() == i,
            forall|j: int| 0 <= j < i ==> marks@[j] == satisfies(q@)(#[trigger] vs@[j]),
        decreases vs.len() - i,
    {
        let b = q.matches(&vs[i].version);
        marks.push(b);
        i = i + 1;
    }
    marks
}

impl VersionResolver {
    /// The position of the best of the marked modules: the greatest version,
    /// the first such where several tie; `None` where none is marked.
    pub fn best_marked(vs: &Vec<TechModule>, marked: &Vec<bool>) -> (r: Option<usize>)
        requires
            vs@.len() == marked@.len(),
            versions_wf(vs@),
        ensures
            match r {
                Some(i) => is_best_marked(vs@, marked@, i as int),
                None => forall|j: int| 0 <= j < marked@.len() ==> !#[trigger] marked@[j],
            },
    {
        let mut best: Option<usize> = None;
        let mut i: usize = 0;
        while i < vs.len()
            invariant
                i <= vs@.len(),
                vs@.len() == marked@.len(),
                versions_wf(vs@),
                match best {
                    Some(b) => {
                        &&& b < i
                        &&& marked@[b as int]
                        &&& forall|j: int| 0 <= j < i && #[trigger] marked@[j] ==> version_order(vs@[j].version, vs@[b as int].version) <= 0
                        &&& forall|j: int| 0 <= j < b && #[trigger] marked@[j] ==> version_order(vs@[j].version, vs@[b as int].version) < 0
                    },
                    None => forall|j: int| 0 <= j < i ==> !#[trigger] marked@[j],
                },
            decreases vs.len() - i,
        {
            if marked[i] {
                match best {
                    None => {
                        proof {
                            lemma_version_order(vs@[i as int].version, vs@[i as int].version, vs@[i as int].version);
                        }
                        best = Some(i);
                    },
                    Some(b) => {
                        let c: i8 = semver_precedence(&vs[i].version, &vs[b].version);
                        proof {
                            lemma_version_order(vs@[i as int].version, vs@[b as int].version, vs@[b as int].version);
                        }
                        if c > 0 {
                            proof {
                                assert forall|j: int| 0 <= j < i + 1 && #[trigger] marked@[j] implies version_order(vs@[j].version, vs@[i as int].version) <= 0 by {
                                    lemma_version_order(vs@[j].version, vs@[b as int].version, vs@[i as int].version);
                                    lemma_version_order(vs@[i as int].version, vs@[i as int].version, vs@[i as int].version);
                                }
                                assert forall|j: int| 0 <= j < i && #[trigger] marked@[j] implies version_order(vs@[j].version, vs@[i as int].version) < 0 by {
                                    lemma_version_order(vs@[j].version, vs@[b as int].version, vs@[i as int].version);
                                    lemma_version_order(vs@[i as int].version, vs@[j].version, vs@[b as int].version);
                                }
                            }
                            best = Some(i);
                        }
                    },
                }
            }
            i = i + 1;
        }
        best
    }

    /// The marked modules, greatest version first.
    pub fn all_marked(vs: &Vec<TechModule>, marked: &Vec<bool>) -> (r: Vec<TechModule>)
        requires
            vs@.len() == marked@.len(),
            versions_wf(vs@),
        ensures
            models(r@).to_multiset() == models(marked_of(vs@, marked@)).to_multiset(),
            sorted_by(r@, module_le(ModuleOrder::ByVersionDescending)),
    {
        let mut acc: Vec<TechModule> = Vec::new();
        let mut i: usize = 0;
        while i < vs.len()
            invariant
                i <= vs@.len(),
                vs@.len() == marked@.len(),
                versions_wf(vs@),
                models(acc@) == models(marked_of(vs@.take(i as int), marked@.take(i as int))),
                versions_wf(acc@),
            decreases vs.len() - i,
        {
            let ghost before = acc@;
            proof {
                assert(vs@.take(i + 1).drop_last() =~= vs@.take(i as int));
                assert(marked@.take(i + 1).drop_last() =~= marked@.take(i as int));
            }
            if marked[i] {
                let m = vs[i].clone();
                acc.push(m);
                proof {
                    assert(models(acc@) =~= models(before).push(m@));
                    assert(models(marked_of(vs@.take(i + 1), marked@.take(i + 1))) =~= models(
                        marked_of(vs@.take(i as int), marked@.take(i as int)),
                    ).push(vs@[i as int]@));
                    assert forall|t: int| 0 <= t < acc@.len() implies (#[trigger] acc@[t]).version.wf() by {
                        if t < before.len() {
                            assert(acc@[t] == before[t]);
                        }
                    }
                }
            }
            i = i + 1;
        }
        proof {
            assert(vs@.take(i as int) =~= vs@);
            assert(marked@.take(i as int) =~= marked@);
        }
        let ghost before = acc@;
        let sorted = sort_modules(acc, ModuleOrder::ByVersionDescending);
        proof {
            lemma_map_permutation(sorted@, before, |m: TechModule| m@);
        }
        sorted
    }

    /// The registered version of a module with the greatest version that
    /// satisfies the requirement (the first such where several tie). Fails
    /// with `ParseError` where `version_req` is not a requirement, then with
    /// `ModuleNotFound(module_name)` where the name has no group, and with
    /// `NoSatisfyingVersion(module_name, version_req)` where no version satisfies it.
    pub fn resolve_best(module_name: &str, version_req: &str, catalog: &Catalog) -> (r: Result<TechModule, CatalogError>)
        ensures
            !semver_req_parses(version_req@) ==> (r matches Err(CatalogError::ParseError(msg)) && msg@
            == invalid_req_text(version_req@, semver_req_error(version_req@)->0)),
            semver_req_parses(version_req@) && !has_group(catalog@, module_name@) ==> (r matches Err(
                CatalogError::ModuleNotFound(n),
            ) && n@ == module_name@),
            semver_req_parses(version_req@) && has_group(catalog@, module_name@) ==> {
                let vs = group_of(catalog@, module_name@);
                let pred = satisfies(version_req@);
                if exists|j: int| 0 <= j < vs.len() && pred(#[trigger] vs[j]) {
                    r matches Ok(m) && exists|i: int| is_best_index(vs, pred, i) && m@ == vs[i]@
                } else {
                    r matches Err(CatalogError::NoSatisfyingVersion(n, q)) && n@ == module_name@ && q@
                        == version_req@
                }
            },
    {
        catalog.well_formed();
        let (q, vs) = requirement_and_versions(module_name, version_req, catalog)?;
        let ghost pred = satisfies(version_req@);
        proof {
            let i = choose|i: int| 0 <= i < catalog@.len() && catalog@[i].0 == module_name@;
            assert(versions_wf(catalog@[i].1));
        }
        let marks = requirement_marks(&q, vs);
        match Self::best_marked(vs, &marks) {
            Some(b) => {
                let m = vs[b].clone();
                proof {
                    assert forall|j: int| 0 <= j < vs@.len() && pred(#[trigger] vs@[j]) implies version_order(
                        vs@[j].version,
                        vs@[b as int].version,
                    ) <= 0 by {
                        assert(marks@[j]);
                    }
                    assert forall|j: int| 0 <= j < b && pred(#[trigger] vs@[j]) implies version_order(
                        vs@[j].version,
                        vs@[b as int].version,
                    ) < 0 by {
                        assert(marks@[j]);
                    }
                    assert(marks@[b as int]);
                    assert(is_best_index(vs@, pred, b as int));
                }
                Ok(m)
            },
            None => {
                proof {
                    assert forall|j: int| 0 <= j < vs@.len() implies !pred(#[trigger] vs@[j]) by {
                        assert(!marks@[j]);
                    }
                }
                Err(CatalogError::NoSatisfyingVersion(String::from_str(module_name), String::from_str(version_req)))
            },
        }
    }

    /// Every registered version of a module that satisfies the requirement,
    /// greatest version first. Fails with `ParseError` where `version_req` is
    /// not a requirement and with `ModuleNotFound(module_name)` where the name
    /// has no group.
    pub fn resolve_all(module_name: &str, version_req: &str, catalog: &Catalog) -> (r: Result<Vec<TechModule>, CatalogError>)
        ensures
            !semver_req_parses(version_req@) ==> (r matches Err(CatalogError::ParseError(msg)) && msg@
            == invalid_req_text(version_req@, semver_req_error(version_req@)->0)),
            semver_req_parses(version_req@) && !has_group(catalog@, module_name@) ==> (r matches Err(
                CatalogError::ModuleNotFound(n),
            ) && n@ == module_name@),
            semver_req_parses(version_req@) && has_group(catalog@, module_name@) ==> (r matches Ok(ms)
                && models(ms@).to_multiset() == models(
                group_of(catalog@, module_name@).filter(satisfies(version_req@)),
            ).to_multiset() && sorted_by(ms@, module_le(ModuleOrder::ByVersionDescending))),
    {
        catalog.well_formed();
        let (q, vs) = requirement_and_versions(module_name, version_req, catalog)?;
        proof {
            let i = choose|i: int| 0 <= i < catalog@.len() && catalog@[i].0 == module_name@;
            assert(versions_wf(catalog@[i].1));
        }
        let marks = requirement_marks(&q, vs);
        let all = Self::all_marked(vs, &marks);
        proof {
            lemma_marked_of_filter(vs@, marks@, satisfies(version_req@));
        }
        Ok(all)
    }
}

} // verus!
