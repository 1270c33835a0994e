//! The catalog: registered modules grouped by name, each group holding every
//! registered version of that module in registration order.

use vstd::prelude::*;
use crate::error::CatalogError;
use crate::module::{TechModule, ModuleModel, module_key, strings_view};
use crate::sort::{versions_wf, sort_strings, sorted_by, string_le, sort_modules, ModuleOrder,
    module_le, lemma_map_permutation};
use crate::text::{push_char, str_eq, has_substring, unicode_lowercase, to_lowercase,
    contains_str};
use crate::version::{Version, version_order, lemma_version_order, semver_parse, semver_version_error,
    semver_precedence};

verus! {

/// The content of a catalog: for each module name, in order of first
/// registration, the name and the versions registered under it.
pub type Groups = Seq<(Seq<char>, Seq<TechModule>)>;

/// The parts of a version as `semver_parse` gives them.
pub open spec fn version_parts(v: Version) -> (u64, u64, u64, Seq<char>, Seq<char>) {
    (v.major, v.minor, v.patch, v.pre@, v.build@)
}

/// Group names are distinct and every registered version is one `semver` accepts.
pub open spec fn catalog_wf(g: Groups) -> bool {
    &&& forall|i: int, j: int| 0 <= i < j < g.len() ==> g[i].0 != g[j].0
    &&& forall|i: int| 0 <= i < g.len() ==> versions_wf(#[trigger] g[i].1)
}

/// The names of the groups, in order.
pub open spec fn group_names(g: Groups) -> Seq<Seq<char>> {
    g.map_values(|p: (Seq<char>, Seq<TechModule>)| p.0)
}

/// Some group has this name.
pub open spec fn has_group(g: Groups, name: Seq<char>) -> bool {
    exists|i: int| 0 <= i < g.len() && g[i].0 == name
}

/// The position of the group with this name (meaningful where `has_group`).
pub open spec fn group_index(g: Groups, name: Seq<char>) -> int {
    choose|i: int| 0 <= i < g.len() && g[i].0 == name
}

/// The versions registered under a name; empty where there is no such group.
pub open spec fn group_of(g: Groups, name: Seq<char>) -> Seq<TechModule> {
    if has_group(g, name) {
        g[group_index(g, name)].1
    } else {
        Seq::empty()
    }
}

/// In a well-formed catalog the group named `name` is the one at `i`.
pub proof fn lemma_group_index(g: Groups, name: Seq<char>, i: int)
    requires
        catalog_wf(g),
        0 <= i < g.len(),
        g[i].0 == name,
    ensures
        has_group(g, name),
        group_index(g, name) == i,
        group_of(g, name) == g[i].1,
{
}

/// `vs[i]` is the module that `max_by_key` on the version picks: no version
/// is greater, and every later one is smaller.
pub open spec fn is_latest_index(vs: Seq<TechModule>, i: int) -> bool {
    &&& 0 <= i < vs.len()
    &&& forall|j: int| 0 <= j < vs.len() ==> version_order(vs[j].version, vs[i].version) <= 0
    &&& forall|j: int| i < j < vs.len() ==> version_order(vs[j].version, vs[i].version) < 0
}

/// The latest of a non-empty list of modules (see `is_latest_index`).
pub open spec fn latest_in(vs: Seq<TechModule>) -> TechModule {
    vs[choose|i: int| is_latest_index(vs, i)]
}

/// The name has a non-empty group, so it has a latest version.
pub open spec fn has_latest(g: Groups, name: Seq<char>) -> bool {
    group_of(g, name).len() > 0
}

/// The latest registered version of the module with this name.
pub open spec fn latest_module(g: Groups, name: Seq<char>) -> TechModule {
    latest_in(group_of(g, name))
}

/// A list of modules has one latest index at most.
pub proof fn lemma_latest_unique(vs: Seq<TechModule>, i: int, j: int)
    requires
        versions_wf(vs),
        is_latest_index(vs, i),
        is_latest_index(vs, j),
    ensures
        i == j,
{
    lemma_version_order(vs[i].version, vs[j].version, vs[j].version);
}

/// `g` with module `m` added at the end of its group (a new group at the end
/// where its name has none).
pub open spec fn with_module(g: Groups, m: TechModule) -> Groups {
    if has_group(g, m.name@) {
        let i = group_index(g, m.name@);
        g.update(i, (m.name@, g[i].1.push(m)))
    } else {
        g.push((m.name@, seq![m]))
    }
}

/// Some registered version of `name` has exactly these parts.
pub open spec fn has_version(g: Groups, name: Seq<char>, parts: (u64, u64, u64, Seq<char>, Seq<char>)) -> bool {
    exists|j: int|
        0 <= j < group_of(g, name).len() && version_parts(#[trigger] group_of(g, name)[j].version)
            == parts
}

/// `g` without the versions of `name` that have these parts; the group goes
/// when it becomes empty.
pub open spec fn without_version(g: Groups, name: Seq<char>, parts: (u64, u64, u64, Seq<char>, Seq<char>)) -> Groups {
    let i = group_index(g, name);
    let kept = g[i].1.filter(|m: TechModule| version_parts(m.version) != parts);
    if kept.len() == 0 {
        g.remove(i)
    } else {
        g.update(i, (name, kept))
    }
}

/// The total number of registered modules.
pub open spec fn total_modules(g: Groups) -> int
    decreases g.len(),
{
    if g.len() == 0 {
        0
    } else {
        total_modules(g.drop_last()) + g.last().1.len()
    }
}

/// Keeps the modules whose version does not have these parts.
pub open spec fn keeps(parts: (u64, u64, u64, Seq<char>, Seq<char>)) -> spec_fn(TechModule) -> bool {
    |m: TechModule| version_parts(m.version) != parts
}

/// The latest module of each non-empty group, in group order.
pub open spec fn latest_of_groups(g: Groups) -> Seq<TechModule>
    decreases g.len(),
{
    if g.len() == 0 {
        Seq::empty()
    } else if g.last().1.len() > 0 {
        latest_of_groups(g.drop_last()).push(latest_in(g.last().1))
    } else {
        latest_of_groups(g.drop_last())
    }
}

/// Every registered module, group by group.
pub open spec fn all_modules(g: Groups) -> Seq<TechModule>
    decreases g.len(),
{
    if g.len() == 0 {
        Seq::empty()
    } else {
        all_modules(g.drop_last()) + g.last().1
    }
}

/// Some string of the list contains `q` once lowercased.
pub open spec fn any_contains(list: Seq<Seq<char>>, q: Seq<char>) -> bool {
    exists|i: int| 0 <= i < list.len() && has_substring(unicode_lowercase(list[i]), q)
}

/// A module matches a (lowercased) query where its lowercased name,
/// description, one of its tags or one of its capabilities contains it.
pub open spec fn matches_query(m: TechModule, q: Seq<char>) -> bool {
    ||| has_substring(unicode_lowercase(m.name@), q)
    ||| has_substring(unicode_lowercase(m.description@), q)
    ||| any_contains(m@.tags, q)
    ||| any_contains(m@.capabilities, q)
}

/// The modules that match a (lowercased) query.
pub open spec fn matching(q: Seq<char>) -> spec_fn(TechModule) -> bool {
    |m: TechModule| matches_query(m, q)
}

/// The views of a list of modules.
pub open spec fn models(s: Seq<TechModule>) -> Seq<ModuleModel> {
    s.map_values(|m: TechModule| m@)
}

#[derive(Debug)]
struct ModuleGroup {
    name: String,
    versions: Vec<TechModule>,
}

/// A catalog of modules, grouped by name.
#[derive(Debug)]
pub struct Catalog {
    groups: Vec<ModuleGroup>,
}

impl View for Catalog {
    type V = Groups;

    closed spec fn view(&self) -> Groups {
        self.groups@.map_values(|g: ModuleGroup| (g.name@, g.versions@))
    }
}

impl Catalog {
    /// Every catalog is well formed.
    #[verifier::type_invariant]
    closed spec fn inv(self) -> bool {
        catalog_wf(self@)
    }

    /// The catalog's content is well formed (distinct names, valid versions).
    pub(crate) fn well_formed(&self)
        ensures
            catalog_wf(self@),
    {
        proof {
            use_type_invariant(self);
        }
    }

    /// An empty catalog.
    pub fn new() -> (r: Catalog)
        ensures
            r@ == Seq::<(Seq<char>, Seq<TechModule>)>::empty(),
    {
        let r = Catalog { groups: Vec::new() };
        assert(r@ =~= Seq::<(Seq<char>, Seq<TechModule>)>::empty());
        r
    }

    /// Position of the group with this name, if any.
    fn find(&self, name: &str) -> (r: Option<usize>)
        ensures
            match r {
                Some(i) => i < self@.len() && self@[i as int].0 == name@ && group_of(self@, name@)
                    == self@[i as int].1,
                None => !has_group(self@, name@) && group_of(self@, name@) == Seq::<TechModule>::empty(),
            },
    {
        proof {
            use_type_invariant(self);
        }
        let mut i: usize = 0;
        while i < self.groups.len()
            invariant
                i <= self.groups.len(),
                self@.len() == self.groups@.len(),
                catalog_wf(self@),
                forall|k: int| 0 <= k < i ==> self@[k].0 != name@,
            decreases self.groups.len() - i,
        {
            if str_eq(self.groups[i].name.as_str(), name) {
                proof {
                    lemma_group_index(self@, name@, i as int);
                }
                return Some(i);
            }
            i = i + 1;
        }
        None
    }

    /// The versions registered under a name, if it has a group.
    pub(crate) fn versions_of(&self, name: &str) -> (r: Option<&Vec<TechModule>>)
        ensures
            match r {
                Some(v) => has_group(self@, name@) && v@ == group_of(self@, name@),
                None => !has_group(self@, name@),
            },
    {
        match self.find(name) {
            Some(i) => Some(&self.groups[i].versions),
            None => None,
        }
    }

    /// Whether some group has this name.
    pub(crate) fn contains_name(&self, name: &str) -> (r: bool)
        ensures
            r == has_group(self@, name@),
    {
        self.find(name).is_some()
    }

    /// Registers a module. Fails with `ModuleAlreadyExists` (carrying the
    /// module's key) where a module of that name with the same version is
    /// already registered; the catalog is then unchanged.
    pub fn register(&mut self, module: TechModule) -> (r: Result<(), CatalogError>)
        requires
            module.version.wf(),
        ensures
            has_version(old(self)@, module.name@, version_parts(module.version)) ==> {
                &&& r matches Err(CatalogError::ModuleAlreadyExists(k)) && k@ == module_key(module)
                &&& final(self)@ == old(self)@
            },
            !has_version(old(self)@, module.name@, version_parts(module.version)) ==> {
                &&& r is Ok
                &&& final(self)@ == with_module(old(self)@, module)
            },
    {
        proof {
            use_type_invariant(&*self);
        }
        let pos = self.find(module.name.as_str());
        match pos {
            None => {
                let ghost g = self@;
                let mut versions: Vec<TechModule> = Vec::new();
                let ghost m = module;
                let name = module.name.clone();
                versions.push(module);
                let mut groups: Vec<ModuleGroup> = Vec::new();
                std::mem::swap(&mut groups, &mut self.groups);
                groups.push(ModuleGroup { name, versions });
                proof {
                    assert(groups@.map_values(|g: ModuleGroup| (g.name@, g.versions@)) =~= g.push(
                        (m.name@, seq![m]),
                    ));
                    assert forall|j: int| 0 <= j < group_of(g, m.name@).len() implies version_parts(
                        #[trigger] group_of(g, m.name@)[j].version,
                    ) != version_parts(m.version) by {}
                }
                self.groups = groups;
                Ok(())
            },
            Some(i) => {
                let ghost g = self@;
                let n: usize = self.groups[i].versions.len();
                let mut j: usize = 0;
                while j < n
                    invariant
                        i < self.groups@.len(),
                        g == self@,
                        n == self.groups@[i as int].versions@.len(),
                        j <= n,
                        group_of(g, module.name@) == self.groups@[i as int].versions@,
                        forall|k: int|
                            0 <= k < j ==> version_parts(
                                (#[trigger] self.groups@[i as int].versions@[k]).version,
                            ) != version_parts(module.version),
                    decreases n - j,
                {
                    if self.groups[i].versions[j].version.equals(&module.version) {
                        return Err(CatalogError::ModuleAlreadyExists(module.key()));
                    }
                    j = j + 1;
                }
                let mut groups: Vec<ModuleGroup> = Vec::new();
                std::mem::swap(&mut groups, &mut self.groups);
                let mut grp = groups.remove(i);
                let ghost m = module;
                grp.versions.push(module);
                groups.insert(i, grp);
                proof {
                    lemma_group_index(g, m.name@, i as int);
                    assert(groups@.map_values(|g: ModuleGroup| (g.name@, g.versions@)) =~= g.update(
                        i as int,
                        (m.name@, g[i as int].1.push(m)),
                    ));
                    let ng = g.update(i as int, (m.name@, g[i as int].1.push(m)));
                    assert forall|k: int| 0 <= k < ng.len() implies versions_wf(#[trigger] ng[k].1) by {
                        if k == i {
                            assert forall|t: int| 0 <= t < ng[k].1.len() implies (#[trigger] ng[k].1[t]).version.wf() by {
                                if t < g[k].1.len() {
                                    assert(ng[k].1[t] == g[k].1[t]);
                                }
                            }
                        }
                    }
                }
                self.groups = groups;
                Ok(())
            },
        }
    }

    /// Every registered version of the module with this name, in registration
    /// order; empty where the name has none.
    pub fn get_versions(&self, name: &str) -> (r: Vec<&TechModule>)
        ensures
            r@.len() == group_of(self@, name@).len(),
            forall|i: int| 0 <= i < r@.len() ==> *r@[i] == group_of(self@, name@)[i],
    {
        let mut out: Vec<&TechModule> = Vec::new();
        match self.find(name) {
            None => {},
            Some(i) => {
                let vs = &self.groups[i].versions;
                let mut j: usize = 0;
                while j < vs.len()
                    invariant
                        j <= vs@.len(),
                        vs@ == group_of(self@, name@),
                        out@.len() == j,
                        forall|k: int| 0 <= k < j ==> *out@[k] == vs@[k],
                    decreases vs.len() - j,
                {
                    out.push(&vs[j]);
                    j = j + 1;
                }
            },
        }
        out
    }

    /// The latest registered version of a module (the last one of greatest
    /// version, as `max_by_key` picks). Fails with `ModuleNotFound(name)` where
    /// the name has no registered version.
    pub fn get_latest(&self, name: &str) -> (r: Result<&TechModule, CatalogError>)
        ensures
            match r {
                Ok(m) => has_latest(self@, name@) && *m == latest_module(self@, name@),
                Err(e) => !has_latest(self@, name@) && (e matches CatalogError::ModuleNotFound(n)
                    && n@ == name@),
            },
    {
        proof {
            use_type_invariant(self);
        }
        match self.find(name) {
            None => Err(CatalogError::ModuleNotFound(String::from_str(name))),
            Some(i) => {
                if self.groups[i].versions.len() == 0 {
                    return Err(CatalogError::ModuleNotFound(String::from_str(name)));
                }
                let vs = &self.groups[i].versions;
                proof {
                    assert(versions_wf(self@[i as int].1));
                }
                let k: usize = latest_index(vs);
                proof {
                    let w = choose|t: int| is_latest_index(vs@, t);
                    lemma_latest_unique(vs@, k as int, w);
                }
                Ok(&vs[k])
            },
        }
    }

    /// The registered module with this name and version (the first registered
    /// one, should there be several). Fails with `ParseError` where `version`
    /// is not a semantic version, and otherwise with
    /// `ModuleNotFound("name@version")` where no such module is registered.
    pub fn get(&self, name: &str, version: &str) -> (r: Result<&TechModule, CatalogError>)
        ensures
            match semver_parse(version@) {
                None => r matches Err(CatalogError::ParseError(m)) && m@ == semver_version_error(version@),
                Some(p) => if has_version(self@, name@, p) {
                    r matches Ok(m) && exists|j: int|
                        0 <= j < group_of(self@, name@).len() && *m == group_of(self@, name@)[j]
                            && version_parts(m.version) == p && forall|k: int|
                            0 <= k < j ==> version_parts(
                                (#[trigger] group_of(self@, name@)[k]).version,
                            ) != p
                } else {
                    r matches Err(CatalogError::ModuleNotFound(n)) && n@ == name@ + seq!['@']
                        + version@
                },
            },
    {
        let ver = Version::parse(version)?;
        let ghost p = version_parts(ver);
        match self.find(name) {
            None => {},
            Some(i) => {
                let vs = &self.groups[i].versions;
                let mut j: usize = 0;
                while j < vs.len()
                    invariant
                        j <= vs@.len(),
                        vs@ == group_of(self@, name@),
                        p == version_parts(ver),
                        semver_parse(version@) == Some(p),
                        forall|k: int| 0 <= k < j ==> version_parts((#[trigger] vs@[k]).version) != p,
                    decreases vs.len() - j,
                {
                    if vs[j].version.equals(&ver) {
                        proof {
                            let jj = j as int;
                            let vs2 = group_of(self@, name@);
                            assert(version_parts(vs2[jj].version) == p);
                            assert(0 <= jj < vs2.len() && vs@[jj] == vs2[jj] && version_parts(
                                vs@[jj].version,
                            ) == p && forall|k: int|
                                0 <= k < jj ==> version_parts((#[trigger] vs2[k]).version) != p);
                            assert(has_version(self@, name@, p));
                            assert(semver_parse(version@) == Some(p));
                        }
                        return Ok(&vs[j]);
                    }
                    j = j + 1;
                }
            },
        }
        Err(CatalogError::ModuleNotFound(name_at_version(name, version)))
    }

    /// The total number of registered modules, all versions counted.
    pub fn total_count(&self) -> (r: usize)
        requires
            total_modules(self@) <= usize::MAX,
        ensures
            r == total_modules(self@),
    {
        let mut total: usize = 0;
        let mut i: usize = 0;
        while i < self.groups.len()
            invariant
                i <= self.groups@.len(),
                self@.len() == self.groups@.len(),
                total_modules(self@) <= usize::MAX,
                total == total_modules(self@.take(i as int)),
            decreases self.groups.len() - i,
        {
            proof {
                assert(self@.take(i + 1).drop_last() =~= self@.take(i as int));
                lemma_total_prefix(self@, i as int + 1);
            }
            total = total + self.groups[i].versions.len();
            i = i + 1;
        }
        assert(self@.take(i as int) =~= self@);
        total
    }

    /// The names of all groups, sorted in code point order.
    pub fn module_names(&self) -> (r: Vec<String>)
        ensures
            strings_view(r@).to_multiset() == group_names(self@).to_multiset(),
            sorted_by(r@, string_le()),
    {
        let mut names: Vec<String> = Vec::new();
        let mut i: usize = 0;
        while i < self.groups.len()
            invariant
                i <= self.groups@.len(),
                self@.len() == self.groups@.len(),
                names@.len() == i,
                forall|k: int| 0 <= k < i ==> (#[trigger] names@[k])@ == self@[k].0,
            decreases self.groups.len() - i,
        {
            let nm = self.groups[i].name.clone();
            names.push(nm);
            proof {
                assert(self@[i as int].0 == self.groups@[i as int].name@);
            }
            i = i + 1;
        }
        proof {
            assert(strings_view(names@) =~= group_names(self@));
        }
        let ghost before = names@;
        let sorted = sort_strings(names);
        proof {
            crate::sort::lemma_map_permutation(sorted@, before, |s: String| s@);
        }
        sorted
    }
}

/// The total count of the first `n` groups is that of the first `n - 1` plus the last.
pub proof fn lemma_total_prefix(g: Groups, n: int)
    requires
        1 <= n <= g.len(),
    ensures
        total_modules(g.take(n)) == total_modules(g.take(n - 1)) + g[n - 1].1.len(),
        total_modules(g.take(n)) <= total_modules(g),
    decreases g.len() - n,
{
    assert(g.take(n).drop_last() =~= g.take(n - 1));
    if n < g.len() {
        lemma_total_prefix(g, n + 1);
    } else {
        assert(g.take(n) =~= g);
    }
}

/// `name@version`.
fn name_at_version(name: &str, version: &str) -> (r: String)
    ensures
        r@ == name@ + seq!['@'] + version@,
{
    let mut s = String::from_str(name);
    push_char(&mut s, '@');
    s.append(version);
    s
}

/// The position of the latest module of a non-empty list.
pub(crate) fn latest_index(vs: &Vec<TechModule>) -> (r: usize)
    requires
        vs@.len() > 0,
        versions_wf(vs@),
    ensures
        is_latest_index(vs@, r as int),
{
    let mut best: usize = 0;
    let mut i: usize = 1;
    proof {
        lemma_version_order(vs@[0].version, vs@[0].version, vs@[0].version);
    }
    while i < vs.len()
        invariant
            1 <= i <= vs@.len(),
            best < i,
            versions_wf(vs@),
            forall|j: int| 0 <= j < i ==> version_order(vs@[j].version, vs@[best as int].version) <= 0,
            forall|j: int| best < j < i ==> version_order(vs@[j].version, vs@[best as int].version) < 0,
        decreases vs.len() - i,
    {
        let c: i8 = semver_precedence(&vs[i].version, &vs[best].version);
        proof {
            lemma_version_order(vs@[i as int].version, vs@[best as int].version, vs@[best as int].version);
            if c >= 0 {
                assert forall|j: int| 0 <= j < i + 1 implies version_order(
                    vs@[j].version,
                    vs@[i as int].version,
                ) <= 0 by {
                    lemma_version_order(vs@[j].version, vs@[best as int].version, vs@[i as int].version);
                    lemma_version_order(vs@[i as int].version, vs@[i as int].version, vs@[i as int].version);
                }
            }
        }
        if c >= 0 {
            best = i;
        }
        i = i + 1;
    }
    best
}


/// Whether any string of the list contains `q` once lowercased.
fn any_string_contains(list: &Vec<String>, q: &str) -> (r: bool)
    ensures
        r == any_contains(list@.map_values(|s: String| s@), q@),
{
    let ghost views = list@.map_values(|s: String| s@);
    let mut i: usize = 0;
    while i < list.len()
        invariant
            i <= list@.len(),
            views == list@.map_values(|s: String| s@),
            forall|k: int| 0 <= k < i ==> !has_substring(unicode_lowercase(#[trigger] views[k]), q@),
        decreases list.len() - i,
    {
        let low = to_lowercase(list[i].as_str());
        if contains_str(low.as_str(), q) {
            assert(has_substring(unicode_lowercase(views[i as int]), q@));
            return true;
        }
        i = i + 1;
    }
    false
}

/// Whether a module matches a lowercased query.
fn module_matches(m: &TechModule, q: &str) -> (r: bool)
    ensures
        r == matches_query(*m, q@),
{
    let name = to_lowercase(m.name.as_str());
    if contains_str(name.as_str(), q) {
        return true;
    }
    let desc = to_lowercase(m.description.as_str());
    if contains_str(desc.as_str(), q) {
        return true;
    }
    any_string_contains(&m.tags, q) || any_string_contains(&m.capabilities, q)
}

impl Catalog {
    /// Removes every registered version `version` of the module `name`; the
    /// group goes when it becomes empty. Fails, leaving the catalog unchanged,
    /// with `ModuleNotFound(name)` where the name has no group, then with
    /// `ParseError` where `version` is not a semantic version, and with
    /// `ModuleNotFound("name@version")` where no such version is registered.
    pub fn unregister(&mut self, name: &str, version: &str) -> (r: Result<(), CatalogError>)
        ensures
            !has_group(old(self)@, name@) ==> {
                &&& r matches Err(CatalogError::ModuleNotFound(n)) && n@ == name@
                &&& final(self)@ == old(self)@
            },
            has_group(old(self)@, name@) && semver_parse(version@) is None ==> {
                &&& r matches Err(CatalogError::ParseError(m)) && m@ == semver_version_error(version@)
                &&& final(self)@ == old(self)@
            },
            semver_parse(version@) matches Some(p) ==> (has_group(old(self)@, name@) ==> if has_version(
                old(self)@,
                name@,
                p,
            ) {
                &&& r is Ok
                &&& final(self)@ == without_version(old(self)@, name@, p)
            } else {
                &&& r matches Err(CatalogError::ModuleNotFound(n)) && n@ == name@ + seq!['@']
                    + version@
                &&& final(self)@ == old(self)@
            }),
    {
        proof {
            use_type_invariant(&*self);
        }
        let ghost g = self@;
        let i = match self.find(name) {
            None => {
                return Err(CatalogError::ModuleNotFound(String::from_str(name)));
            },
            Some(i) => i,
        };
        let ver = Version::parse(version)?;
        let ghost p = version_parts(ver);
        proof {
            lemma_group_index(g, name@, i as int);
        }
        let mut groups: Vec<ModuleGroup> = Vec::new();
        std::mem::swap(&mut groups, &mut self.groups);
        let grp = groups.remove(i);
        let ghost orig = grp.versions@;
        assert(orig == g[i as int].1);
        let mut rest = grp.versions;
        assert(orig.len() <= usize::MAX) by {
            assert(rest@.len() == rest.len());
        }
        let mut kept: Vec<TechModule> = Vec::new();
        let mut removed = false;
        let mut c: usize = 0;
        while rest.len() > 0
            invariant
                c + rest@.len() == orig.len(),
                orig.len() <= usize::MAX,
                rest@ == orig.skip(c as int),
                kept@ == orig.take(c as int).filter(keeps(p)),
                p == version_parts(ver),
                removed == exists|k: int| 0 <= k < c && version_parts((#[trigger] orig[k]).version) == p,
            decreases rest.len(),
        {
            let m = rest.remove(0);
            proof {
                assert(m == orig[c as int]);
                assert(orig.take(c + 1) =~= orig.take(c as int).push(m));
                orig.take(c as int).lemma_filter_push(m, keeps(p));
                assert(rest@ =~= orig.skip(c + 1));
            }
            if m.version.equals(&ver) {
                removed = true;
            } else {
                kept.push(m);
            }
            c = c + 1;
        }
        proof {
            assert(orig.take(c as int) =~= orig);
        }
        if !removed {
            proof {
                assert forall|k: int| 0 <= k < orig.len() implies keeps(p)(orig[k]) by {}
                lemma_filter_all(orig, keeps(p));
                assert(!has_version(g, name@, p));
            }
            groups.insert(i, ModuleGroup { name: grp.name, versions: kept });
            proof {
                assert(groups@.map_values(|g: ModuleGroup| (g.name@, g.versions@)) =~= g);
            }
            self.groups = groups;
            return Err(CatalogError::ModuleNotFound(name_at_version(name, version)));
        }
        proof {
            let k = choose|k: int| 0 <= k < c && version_parts((#[trigger] orig[k]).version) == p;
            assert(version_parts(group_of(g, name@)[k].version) == p);
        }
        if kept.len() == 0 {
            proof {
                assert(groups@.map_values(|g: ModuleGroup| (g.name@, g.versions@)) =~= g.remove(i as int));
            }
            self.groups = groups;
        } else {
            groups.insert(i, ModuleGroup { name: grp.name, versions: kept });
            proof {
                let ng = g.update(i as int, (name@, orig.filter(keeps(p))));
                assert(groups@.map_values(|g: ModuleGroup| (g.name@, g.versions@)) =~= ng);
                assert forall|t: int| 0 <= t < ng.len() implies versions_wf(#[trigger] ng[t].1) by {
                    if t == i {
                        assert forall|u: int| 0 <= u < ng[t].1.len() implies (#[trigger] ng[t].1[u]).version.wf() by {
                            lemma_filter_member(orig, keeps(p), u);
                        }
                    }
                }
            }
            self.groups = groups;
        }
        Ok(())
    }

    /// The latest version of every module, sorted by name.
    pub fn list_all(&self) -> (r: Vec<TechModule>)
        ensures
            models(r@).to_multiset() == models(latest_of_groups(self@)).to_multiset(),
            sorted_by(r@, module_le(ModuleOrder::ByName)),
    {
        proof {
            use_type_invariant(self);
        }
        let mut acc: Vec<TechModule> = Vec::new();
        let mut i: usize = 0;
        while i < self.groups.len()
            invariant
                i <= self.groups@.len(),
                self@.len() == self.groups@.len(),
                catalog_wf(self@),
                models(acc@) == models(latest_of_groups(self@.take(i as int))),
                versions_wf(acc@),
            decreases self.groups.len() - i,
        {
            let vs = &self.groups[i].versions;
            proof {
                assert(self@[i as int].1 == vs@);
                assert(self@.take(i + 1).drop_last() =~= self@.take(i as int));
                assert(versions_wf(self@[i as int].1));
            }
            if vs.len() > 0 {
                let k: usize = latest_index(vs);
                let m = vs[k].clone();
                proof {
                    let w = choose|t: int| is_latest_index(vs@, t);
                    lemma_latest_unique(vs@, k as int, w);
                }
                let ghost before = acc@;
                acc.push(m);
                proof {
                    assert(models(acc@) =~= models(before).push(m@));
                    assert(models(latest_of_groups(self@.take(i + 1))) =~= models(
                        latest_of_groups(self@.take(i as int)),
                    ).push(latest_in(vs@)@));
                    assert forall|t: int| 0 <= t < acc@.len() implies (#[trigger] acc@[t]).version.wf() by {
                        if t < before.len() {
                            assert(acc@[t] == before[t]);
                        }
                    }
                }
            }
            i = i + 1;
        }
        proof {
            assert(self@.take(i as int) =~= self@);
        }
        let ghost before = acc@;
        let sorted = sort_modules(acc, ModuleOrder::ByName);
        proof {
            lemma_map_permutation(sorted@, before, |m: TechModule| m@);
        }
        sorted
    }

    /// The modules whose name, description, a tag or a capability contains the
    /// query, ignoring case (both sides lowercased), greatest version first.
    pub fn search(&self, query: &str) -> (r: Vec<TechModule>)
        ensures
            models(r@).to_multiset() == models(
                all_modules(self@).filter(matching(unicode_lowercase(query@))),
            ).to_multiset(),
            sorted_by(r@, module_le(ModuleOrder::ByVersionDescending)),
    {
        proof {
            use_type_invariant(self);
        }
        let q = to_lowercase(query);
        let ghost pred = matching(q@);
        let mut acc: Vec<TechModule> = Vec::new();
        let ghost mut seen: Seq<TechModule> = Seq::empty();
        let mut i: usize = 0;
        while i < self.groups.len()
            invariant
                i <= self.groups@.len(),
                self@.len() == self.groups@.len(),
                catalog_wf(self@),
                pred == matching(q@),
                seen == all_modules(self@.take(i as int)),
                models(acc@) == models(seen.filter(pred)),
                versions_wf(acc@),
            decreases self.groups.len() - i,
        {
            let vs = &self.groups[i].versions;
            proof {
                assert(self@[i as int].1 == vs@);
                assert(versions_wf(self@[i as int].1));
            }
            let ghost start = seen;
            let mut j: usize = 0;
            while j < vs.len()
                invariant
                    j <= vs@.len(),
                    versions_wf(vs@),
                    pred == matching(q@),
                    seen == start + vs@.take(j as int),
                    models(acc@) == models(seen.filter(pred)),
                    versions_wf(acc@),
                decreases vs.len() - j,
            {
                let ghost before = acc@;
                let ghost old_seen = seen;
                proof {
                    seen = seen.push(vs@[j as int]);
                    assert(seen =~= start + vs@.take(j + 1));
                    old_seen.lemma_filter_push(vs@[j as int], pred);
                }
                if module_matches(&vs[j], q.as_str()) {
                    let m = vs[j].clone();
                    acc.push(m);
                    proof {
                        assert(models(acc@) =~= models(before).push(m@));
                        assert(models(seen.filter(pred)) =~= models(old_seen.filter(pred)).push(vs@[j as int]@));
                        assert forall|t: int| 0 <= t < acc@.len() implies (#[trigger] acc@[t]).version.wf() by {
                            if t < before.len() {
                                assert(acc@[t] == before[t]);
                            }
                        }
                    }
                }
                j = j + 1;
            }
            proof {
                assert(vs@.take(j as int) =~= vs@);
                assert(self@.take(i + 1).drop_last() =~= self@.take(i as int));
            }
            i = i + 1;
        }
        proof {
            assert(self@.take(i as int) =~= self@);
        }
        let ghost before = acc@;
        let sorted = sort_modules(acc, ModuleOrder::ByVersionDescending);
        proof {
            lemma_map_permutation(sorted@, before, |m: TechModule| m@);
        }
        sorted
    }
}

/// Filtering by a predicate that holds of every element keeps everything.
pub proof fn lemma_filter_all<A>(s: Seq<A>, pred: spec_fn(A) -> bool)
    requires
        forall|k: int| 0 <= k < s.len() ==> pred(s[k]),
    ensures
        s.filter(pred) == s,
    decreases s.len(),
{
    if s.len() > 0 {
        lemma_filter_all(s.drop_last(), pred);
        assert(s =~= s.drop_last().push(s.last()));
        s.drop_last().lemma_filter_push(s.last(), pred);
    } else {
        assert(s.filter(pred) =~= s);
    }
}

/// An element of a filtered sequence is an element of the sequence.
pub proof fn lemma_filter_member<A>(s: Seq<A>, pred: spec_fn(A) -> bool, u: int)
    requires
        0 <= u < s.filter(pred).len(),
    ensures
        s.contains(s.filter(pred)[u]),
        pred(s.filter(pred)[u]),
{
    s.lemma_filter_pred(pred, u);
    assert(s.filter(pred).contains(s.filter(pred)[u]));
    s.lemma_filter_contains_rev(pred, s.filter(pred)[u]);
}


/// The catalog built by registering these modules one after the other,
/// where none duplicates an earlier one.
pub open spec fn catalog_of(ms: Seq<TechModule>) -> Groups
    decreases ms.len(),
{
    if ms.len() == 0 {
        Seq::empty()
    } else {
        with_module(catalog_of(ms.drop_last()), ms.last())
    }
}

/// Two modules of the list have the same name and version.
pub open spec fn has_duplicate(ms: Seq<TechModule>) -> bool {
    exists|i: int, j: int|
        0 <= i < j < ms.len() && #[trigger] ms[i].name@ == #[trigger] ms[j].name@ && version_parts(
            ms[i].version,
        ) == version_parts(ms[j].version)
}

/// Some version of `name` with these parts is registered in `catalog_of(ms)`
/// exactly when some module of `ms` has that name and those parts.
pub proof fn lemma_catalog_of_has_version(ms: Seq<TechModule>, name: Seq<char>, p: (u64, u64, u64, Seq<char>, Seq<char>))
    requires
        versions_wf(ms),
    ensures
        catalog_wf(catalog_of(ms)),
        has_version(catalog_of(ms), name, p) <==> exists|k: int|
            0 <= k < ms.len() && (#[trigger] ms[k]).name@ == name && version_parts(ms[k].version) == p,
    decreases ms.len(),
{
    if ms.len() > 0 {
        let rest = ms.drop_last();
        let m = ms.last();
        lemma_catalog_of_has_version(rest, name, p);
        let g = catalog_of(rest);
        lemma_with_module(g, m, name, p);
        if exists|k: int| 0 <= k < rest.len() && (#[trigger] rest[k]).name@ == name && version_parts(rest[k].version) == p {
            let k = choose|k: int| 0 <= k < rest.len() && (#[trigger] rest[k]).name@ == name && version_parts(rest[k].version) == p;
            assert(ms[k] == rest[k]);
        }
        if exists|k: int| 0 <= k < ms.len() && (#[trigger] ms[k]).name@ == name && version_parts(ms[k].version) == p {
            let k = choose|k: int| 0 <= k < ms.len() && (#[trigger] ms[k]).name@ == name && version_parts(ms[k].version) == p;
            if k < rest.len() {
                assert(rest[k] == ms[k]);
            }
        }
    } else {
        assert(!has_group(catalog_of(ms), name));
    }
}

/// Adding a module keeps a catalog well formed, and adds exactly its own
/// name and version.
pub proof fn lemma_with_module(g: Groups, m: TechModule, name: Seq<char>, p: (u64, u64, u64, Seq<char>, Seq<char>))
    requires
        catalog_wf(g),
        m.version.wf(),
    ensures
        catalog_wf(with_module(g, m)),
        has_version(with_module(g, m), name, p) <==> has_version(g, name, p) || (m.name@ == name
            && version_parts(m.version) == p),
{
    let ng = with_module(g, m);
    if has_group(g, m.name@) {
        let i = group_index(g, m.name@);
        lemma_group_index(g, m.name@, i);
        assert forall|t: int| 0 <= t < ng.len() implies versions_wf(#[trigger] ng[t].1) by {
            if t == i {
                assert forall|u: int| 0 <= u < ng[t].1.len() implies (#[trigger] ng[t].1[u]).version.wf() by {
                    if u < g[t].1.len() {
                        assert(ng[t].1[u] == g[t].1[u]);
                    }
                }
            }
        }
        assert(catalog_wf(ng));
        if has_group(g, name) {
            let k = group_index(g, name);
            lemma_group_index(g, name, k);
            lemma_group_index(ng, name, k);
            if k == i {
                let vs = g[i].1;
                let nvs = ng[i].1;
                assert(nvs == vs.push(m));
                if has_version(ng, name, p) {
                    let j = choose|j: int| 0 <= j < group_of(ng, name).len() && version_parts(#[trigger] group_of(ng, name)[j].version) == p;
                    if j < vs.len() {
                        assert(nvs[j] == vs[j]);
                        assert(version_parts(group_of(g, name)[j].version) == p);
                    }
                }
                if has_version(g, name, p) {
                    let j = choose|j: int| 0 <= j < group_of(g, name).len() && version_parts(#[trigger] group_of(g, name)[j].version) == p;
                    assert(nvs[j] == vs[j]);
                    assert(version_parts(group_of(ng, name)[j].version) == p);
                }
                if m.name@ == name && version_parts(m.version) == p {
                    assert(nvs[vs.len() as int] == m);
                    assert(version_parts(group_of(ng, name)[vs.len() as int].version) == p);
                }
            } else {
                assert(group_of(ng, name) == group_of(g, name));
            }
        } else {
            assert forall|t: int| 0 <= t < ng.len() implies ng[t].0 != name by {}
            assert(!has_group(ng, name));
        }
    } else {
        let n = g.len() as int;
        assert(ng[n] == (m.name@, seq![m]));
        assert forall|t: int| 0 <= t < ng.len() implies versions_wf(#[trigger] ng[t].1) by {
            if t < n {
                assert(ng[t] == g[t]);
            }
        }
        assert forall|a: int, b: int| 0 <= a < b < ng.len() implies ng[a].0 != ng[b].0 by {
            if b == n {
                assert(ng[a] == g[a]);
            }
        }
        if has_group(g, name) {
            let k = group_index(g, name);
            lemma_group_index(g, name, k);
            assert(ng[k] == g[k]);
            lemma_group_index(ng, name, k);
        } else if name == m.name@ {
            lemma_group_index(ng, name, n);
            if m.name@ == name && version_parts(m.version) == p {
                assert(version_parts(group_of(ng, name)[0].version) == p);
            }
        } else {
            assert forall|t: int| 0 <= t < ng.len() implies ng[t].0 != name by {
                if t < n {
                    assert(ng[t] == g[t]);
                }
            }
        }
    }
}

/// The fields of a repository's metadata that a catalog is built from.
pub struct RepoInfo {
    /// `name`, where it is a string.
    pub name: Option<String>,
    /// `description`, where it is a string.
    pub description: Option<String>,
    /// `html_url`, where it is a string.
    pub html_url: Option<String>,
    /// The entries of `topics` (empty where it is not an array); `None` for an
    /// entry that is not a string.
    pub topics: Vec<Option<String>>,
    /// `version`, where it is a string.
    pub version: Option<String>,
    /// `owner.login`, where it is a string.
    pub owner_login: Option<String>,
}

/// The text of an optional string, or `default` where it is absent.
pub open spec fn text_or(o: Option<String>, default: Seq<char>) -> Seq<char> {
    match o {
        Some(s) => s@,
        None => default,
    }
}

/// The strings among a list of optional strings, in order.
pub open spec fn present_strings(t: Seq<Option<String>>) -> Seq<Seq<char>>
    decreases t.len(),
{
    if t.len() == 0 {
        Seq::empty()
    } else {
        match t.last() {
            Some(s) => present_strings(t.drop_last()).push(s@),
            None => present_strings(t.drop_last()),
        }
    }
}

/// The version of a repository's module: its `version` parsed (`0.1.0` where
/// it has none), and `0.1.0` where that text is not a semantic version.
pub open spec fn repo_version_parts(r: RepoInfo) -> (u64, u64, u64, Seq<char>, Seq<char>) {
    match semver_parse(text_or(r.version, "0.1.0"@)) {
        Some(p) => p,
        None => (0, 1, 0, Seq::empty(), Seq::empty()),
    }
}

/// `m` is the module that a repository's metadata describes.
pub open spec fn is_repo_module(r: RepoInfo, m: TechModule) -> bool {
    &&& m.name@ == text_or(r.name, "unknown"@)
    &&& version_parts(m.version) == repo_version_parts(r)
    &&& m.version.wf()
    &&& m.description@ == text_or(r.description, Seq::empty())
    &&& m.author@ == text_or(r.owner_login, "unknown"@)
    &&& m.dependencies@.len() == 0
    &&& m@.capabilities == present_strings(r.topics@)
    &&& m@.tags == present_strings(r.topics@)
    &&& m.repository_url@ == text_or(r.html_url, Seq::empty())
    &&& m.supported_platforms@.len() == 0
    &&& m.min_ram_mb is None
}

/// The string held by `o`, or `default`.
fn text_or_default(o: &Option<String>, default: &str) -> (r: String)
    ensures
        r@ == text_or(*o, default@),
{
    match o {
        Some(s) => s.clone(),
        None => String::from_str(default),
    }
}

/// The topics that are strings, in order.
fn present_topics(t: &Vec<Option<String>>) -> (r: Vec<String>)
    ensures
        strings_view(r@) == present_strings(t@),
{
    let mut out: Vec<String> = Vec::new();
    let mut i: usize = 0;
    while i < t.len()
        invariant
            i <= t@.len(),
            strings_view(out@) == present_strings(t@.take(i as int)),
        decreases t.len() - i,
    {
        let ghost before = out@;
        proof {
            assert(t@.take(i + 1).drop_last() =~= t@.take(i as int));
        }
        match &t[i] {
            Some(s) => {
                out.push(s.clone());
                assert(strings_view(out@) =~= strings_view(before).push(s@));
            },
            None => {},
        }
        i = i + 1;
    }
    assert(t@.take(i as int) =~= t@);
    out
}

/// The module that a repository's metadata describes.
fn repo_module(r: &RepoInfo) -> (m: TechModule)
    ensures
        is_repo_module(*r, m),
{
    let name = text_or_default(&r.name, "unknown");
    let description = text_or_default(&r.description, "");
    let url = text_or_default(&r.html_url, "");
    let author = text_or_default(&r.owner_login, "unknown");
    let caps = present_topics(&r.topics);
    let tags = present_topics(&r.topics);
    let vtext = text_or_default(&r.version, "0.1.0");
    let version = match Version::parse(vtext.as_str()) {
        Ok(v) => v,
        Err(_) => Version::new(0, 1, 0),
    };
    proof {
        assert(""@ =~= Seq::<char>::empty()) by {
            reveal_strlit("");
        }
    }
    let m = TechModule {
        name,
        version,
        description,
        author,
        dependencies: Vec::new(),
        capabilities: caps,
        repository_url: url,
        supported_platforms: Vec::new(),
        min_ram_mb: None,
        tags,
    };
    assert(version_parts(m.version) == repo_version_parts(*r));
    assert(m.description@ == text_or(r.description, Seq::empty()));
    assert(m@.capabilities == present_strings(r.topics@));
    assert(m.repository_url@ == text_or(r.html_url, Seq::empty()));
    m
}

impl Catalog {
    /// Builds a catalog from repository metadata, registering one module per
    /// repository in order (see `is_repo_module`). Fails with
    /// `ModuleAlreadyExists` at the first repository whose module has the
    /// name and version of an earlier one.
    pub fn from_github_repos(repos: &[RepoInfo]) -> (r: Result<Catalog, CatalogError>)
        ensures
            exists|ms: Seq<TechModule>|
                #![trigger has_duplicate(ms)]
                {
                    &&& ms.len() <= repos@.len()
                    &&& forall|i: int| 0 <= i < ms.len() ==> is_repo_module(repos@[i], #[trigger] ms[i])
                    &&& match r {
                        Ok(c) => ms.len() == repos@.len() && !has_duplicate(ms) && c@ == catalog_of(ms),
                        Err(e) => ms.len() > 0 && !has_duplicate(ms.drop_last()) && has_duplicate(ms)
                            && (e matches CatalogError::ModuleAlreadyExists(k) && k@ == module_key(ms.last())),
                    }
                },
    {
        let mut c = Catalog::new();
        let ghost mut ms: Seq<TechModule> = Seq::empty();
        let mut i: usize = 0;
        proof {
            assert(c@ =~= catalog_of(ms));
        }
        while i < repos.len()
            invariant
                i <= repos@.len(),
                ms.len() == i,
                forall|k: int| 0 <= k < ms.len() ==> is_repo_module(repos@[k], #[trigger] ms[k]),
                !has_duplicate(ms),
                c@ == catalog_of(ms),
            decreases repos.len() - i,
        {
            let m = repo_module(&repos[i]);
            let ghost mm = m;
            let ghost old_ms = ms;
            proof {
                ms = ms.push(m);
                assert(ms.drop_last() =~= old_ms);
                assert(versions_wf(old_ms)) by {
                    assert forall|k: int| 0 <= k < old_ms.len() implies (#[trigger] old_ms[k]).version.wf() by {
                        assert(is_repo_module(repos@[k], old_ms[k]));
                    }
                }
                lemma_catalog_of_has_version(old_ms, mm.name@, version_parts(mm.version));
                assert(ms.last() == mm);
            }
            match c.register(m) {
                Ok(()) => {
                    proof {
                        assert forall|a: int, b: int|
                            0 <= a < b < ms.len() && #[trigger] ms[a].name@ == #[trigger] ms[b].name@
                                implies version_parts(ms[a].version) != version_parts(ms[b].version) by {
                            if b < old_ms.len() {
                                assert(ms[a] == old_ms[a] && ms[b] == old_ms[b]);
                            } else {
                                assert(ms[a] == old_ms[a]);
                                if version_parts(ms[a].version) == version_parts(ms[b].version) {
                                    assert(old_ms[a].name@ == mm.name@);
                                }
                            }
                        }
                    }
                },
                Err(e) => {
                    proof {
                        let k = choose|k: int| 0 <= k < old_ms.len() && (#[trigger] old_ms[k]).name@ == mm.name@ && version_parts(old_ms[k].version) == version_parts(mm.version);
                        assert(ms[k] == old_ms[k] && ms[old_ms.len() as int] == mm);
                        assert(ms[k].name@ == ms[old_ms.len() as int].name@);
                        assert(has_duplicate(ms));
                        assert(!has_duplicate(ms.drop_last()));
                        assert(e matches CatalogError::ModuleAlreadyExists(kk) && kk@ == module_key(ms.last()));
                        assert(forall|t: int| 0 <= t < ms.len() ==> is_repo_module(repos@[t], #[trigger] ms[t]));
                    }
                    return Err(e);
                },
            }
            i = i + 1;
        }
        Ok(c)
    }

    /// Builds a catalog from groups of modules as they are stored (name, then
    /// versions in order). Fails with `ModuleAlreadyExists(name)` where a name
    /// comes twice and with `ParseError` where a version has pre-release or
    /// build text that `semver` refuses.
    #[verifier::loop_isolation(false)]
    pub fn from_groups(groups: Vec<(String, Vec<TechModule>)>) -> (r: Result<Catalog, CatalogError>)
        ensures
            r is Ok <==> catalog_wf(groups@.map_values(|p: (String, Vec<TechModule>)| (p.0@, p.1@))),
            r matches Ok(c) ==> c@ == groups@.map_values(|p: (String, Vec<TechModule>)| (p.0@, p.1@)),
            r matches Err(e) ==> {
                ||| e matches CatalogError::ModuleAlreadyExists(n) && exists|i: int, j: int|
                    0 <= i < j < groups@.len() && (#[trigger] groups@[i]).0@ == n@ && (
                    #[trigger] groups@[j]).0@ == n@
                ||| e is ParseError && exists|i: int|
                    0 <= i < groups@.len() && !versions_wf((#[trigger] groups@[i]).1@)
            },
    {
        let ghost target = groups@.map_values(|p: (String, Vec<TechModule>)| (p.0@, p.1@));
        let mut rest = groups;
        let mut built: Vec<ModuleGroup> = Vec::new();
        let ghost orig = rest@;
        let mut c: usize = 0;
        assert(orig.len() <= usize::MAX) by {
            assert(rest@.len() == rest.len());
        }
        while rest.len() > 0
            invariant
                c + rest@.len() == orig.len(),
                orig.len() <= usize::MAX,
                rest@ == orig.skip(c as int),
                target == orig.map_values(|p: (String, Vec<TechModule>)| (p.0@, p.1@)),
                built@.map_values(|g: ModuleGroup| (g.name@, g.versions@)) == target.take(c as int),
                catalog_wf(target.take(c as int)),
            decreases rest.len(),
        {
            let (name, versions) = rest.remove(0);
            proof {
                assert((name, versions) == orig[c as int]);
                assert(rest@ =~= orig.skip(c + 1));
            }
            let mut k: usize = 0;
            while k < built.len()
                invariant
                    k <= built@.len(),
                    built@.map_values(|g: ModuleGroup| (g.name@, g.versions@)) == target.take(c as int),
                    forall|t: int| 0 <= t < k ==> built@[t].name@ != name@,
                decreases built.len() - k,
            {
                if str_eq(built[k].name.as_str(), name.as_str()) {
                    proof {
                        assert(target[k as int].0 == target.take(c as int)[k as int].0);
                        assert(target[c as int].0 == name@);
                        assert(!catalog_wf(target));
                        assert(orig[k as int].0@ == target[k as int].0);
                        assert(orig[c as int].0@ == name@);
                    }
                    return Err(CatalogError::ModuleAlreadyExists(name));
                }
                k = k + 1;
            }
            let mut j: usize = 0;
            while j < versions.len()
                invariant
                    j <= versions@.len(),
                    forall|t: int| 0 <= t < j ==> (#[trigger] versions@[t]).version.wf(),
                decreases versions.len() - j,
            {
                if !versions[j].version.is_valid() {
                    proof {
                        assert(target[c as int].1 == versions@);
                        assert(!versions_wf(target[c as int].1));
                        assert(!catalog_wf(target));
                        assert(orig[c as int].1@ == versions@);
                    }
                    return Err(CatalogError::ParseError(versions[j].version.to_string()));
                }
                j = j + 1;
            }
            built.push(ModuleGroup { name, versions });
            proof {
                let t1 = target.take(c + 1);
                assert(built@.map_values(|g: ModuleGroup| (g.name@, g.versions@)) =~= t1);
                assert forall|a: int, b: int| 0 <= a < b < t1.len() implies t1[a].0 != t1[b].0 by {
                    if b == c {
                        assert(t1[a] == built@.map_values(|g: ModuleGroup| (g.name@, g.versions@))[a]);
                    }
                }
            }
            c = c + 1;
        }
        proof {
            assert(target.take(c as int) =~= target);
        }
        Ok(Catalog { groups: built })
    }
}

impl Default for Catalog {
    /// An empty catalog.
    fn default() -> (r: Catalog)
        ensures
            r@ == Seq::<(Seq<char>, Seq<TechModule>)>::empty(),
    {
        Catalog::new()
    }
}

} // verus!
