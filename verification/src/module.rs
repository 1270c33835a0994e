//! Module descriptions: name, version, dependencies, capabilities and the
//! platforms a module supports.

use vstd::prelude::*;
use crate::error::CatalogError;
use crate::platform::Platform;
use crate::text::{chars_of, find_char, string_of_range, first_index_of, lemma_first_index_of,
    push_char};
use crate::version::{Version, VersionRequirement, version_text, semver_parse, semver_version_error,
    semver_req_parses,
    parse_semver_req};

verus! {

/// A module of the catalog.
#[derive(Debug)]
pub struct TechModule {
    pub name: String,
    pub version: Version,
    pub description: String,
    pub author: String,
    /// Dependencies, each written `name` or `name@requirement`.
    pub dependencies: Vec<String>,
    pub capabilities: Vec<String>,
    pub repository_url: String,
    /// Platforms the module supports; empty means every platform.
    pub supported_platforms: Vec<Platform>,
    pub min_ram_mb: Option<u32>,
    pub tags: Vec<String>,
}

/// What a module holds, with its strings taken as character sequences.
#[verifier::ext_equal]
pub struct ModuleModel {
    pub name: Seq<char>,
    pub version: Version,
    pub description: Seq<char>,
    pub author: Seq<char>,
    pub dependencies: Seq<Seq<char>>,
    pub capabilities: Seq<Seq<char>>,
    pub repository_url: Seq<char>,
    pub supported_platforms: Seq<Platform>,
    pub min_ram_mb: Option<u32>,
    pub tags: Seq<Seq<char>>,
}

/// The character sequences of a list of strings.
pub open spec fn strings_view(v: Seq<String>) -> Seq<Seq<char>> {
    v.map_values(|s: String| s@)
}

impl View for TechModule {
    type V = ModuleModel;

    open spec fn view(&self) -> ModuleModel {
        ModuleModel {
            name: self.name@,
            version: self.version,
            description: self.description@,
            author: self.author@,
            dependencies: strings_view(self.dependencies@),
            capabilities: strings_view(self.capabilities@),
            repository_url: self.repository_url@,
            supported_platforms: self.supported_platforms@,
            min_ram_mb: self.min_ram_mb,
            tags: strings_view(self.tags@),
        }
    }
}

/// The key of a module: `name@version`.
pub open spec fn module_key(m: TechModule) -> Seq<char> {
    m.name@ + seq!['@'] + version_text(m.version)
}

/// Whether a module supports a platform: it declares none, or declares this one.
pub open spec fn supports(m: TechModule, p: Platform) -> bool {
    m.supported_platforms@.len() == 0 || m.supported_platforms@.contains(p)
}

/// The module name that a dependency string designates: the part before its
/// first '@' when the rest is a requirement that `semver` accepts, and the
/// whole string otherwise.
pub open spec fn dep_name(dep: Seq<char>) -> Seq<char> {
    let k = first_index_of(dep, '@');
    if k < dep.len() && semver_req_parses(dep.skip(k as int + 1)) {
        dep.take(k as int)
    } else {
        dep
    }
}

/// The requirement text that a dependency string carries, if any (see `dep_name`).
pub open spec fn dep_requirement(dep: Seq<char>) -> Option<Seq<char>> {
    let k = first_index_of(dep, '@');
    if k < dep.len() && semver_req_parses(dep.skip(k as int + 1)) {
        Some(dep.skip(k as int + 1))
    } else {
        None
    }
}

impl TechModule {
    /// A module with the given name and version, and nothing else set.
    /// Fails with `ParseError` where `version` is not a semantic version.
    pub fn new(name: String, version: &str) -> (r: Result<TechModule, CatalogError>)
        ensures
            match r {
                Ok(m) => {
                    &&& semver_parse(version@) == Some(
                        (m.version.major, m.version.minor, m.version.patch, m.version.pre@, m.version.build@),
                    )
                    &&& m.version.wf()
                    &&& m.name == name
                    &&& m.description@.len() == 0
                    &&& m.author@.len() == 0
                    &&& m.dependencies@.len() == 0
                    &&& m.capabilities@.len() == 0
                    &&& m.repository_url@.len() == 0
                    &&& m.supported_platforms@.len() == 0
                    &&& m.min_ram_mb is None
                    &&& m.tags@.len() == 0
                },
                Err(e) => semver_parse(version@) is None && (e matches CatalogError::ParseError(m)
                    && m@ == semver_version_error(version@)),
            },
    {
        let v = Version::parse(version)?;
        Ok(
            TechModule {
                name,
                version: v,
                description: String::new(),
                author: String::new(),
                dependencies: Vec::new(),
                capabilities: Vec::new(),
                repository_url: String::new(),
                supported_platforms: Vec::new(),
                min_ram_mb: None,
                tags: Vec::new(),
            },
        )
    }

    /// The module with this description.
    pub fn description(self, desc: String) -> (r: TechModule)
        ensures
            r == (TechModule { description: desc, ..self }),
    {
        TechModule { description: desc, ..self }
    }

    /// The module with this author.
    pub fn author(self, author: String) -> (r: TechModule)
        ensures
            r == (TechModule { author: author, ..self }),
    {
        TechModule { author, ..self }
    }

    /// The module with these dependencies.
    pub fn dependencies(self, deps: Vec<String>) -> (r: TechModule)
        ensures
            r == (TechModule { dependencies: deps, ..self }),
    {
        TechModule { dependencies: deps, ..self }
    }

    /// The module with these capabilities.
    pub fn capabilities(self, caps: Vec<String>) -> (r: TechModule)
        ensures
            r == (TechModule { capabilities: caps, ..self }),
    {
        TechModule { capabilities: caps, ..self }
    }

    /// The module with this repository URL.
    pub fn repository_url(self, url: String) -> (r: TechModule)
        ensures
            r == (TechModule { repository_url: url, ..self }),
    {
        TechModule { repository_url: url, ..self }
    }

    /// The module with these supported platforms.
    pub fn supported_platforms(self, platforms: Vec<Platform>) -> (r: TechModule)
        ensures
            r == (TechModule { supported_platforms: platforms, ..self }),
    {
        TechModule { supported_platforms: platforms, ..self }
    }

    /// The module with this memory requirement, in MB.
    pub fn min_ram_mb(self, mb: u32) -> (r: TechModule)
        ensures
            r == (TechModule { min_ram_mb: Some(mb), ..self }),
    {
        TechModule { min_ram_mb: Some(mb), ..self }
    }

    /// The module with these tags.
    pub fn tags(self, tags: Vec<String>) -> (r: TechModule)
        ensures
            r == (TechModule { tags: tags, ..self }),
    {
        TechModule { tags, ..self }
    }

    /// The unique key `name@version`.
    pub fn key(&self) -> (r: String)
        ensures
            r@ == module_key(*self),
    {
        let mut s = self.name.clone();
        push_char(&mut s, '@');
        let v = self.version.to_string();
        s.append(v.as_str());
        s
    }

    /// Whether the module supports `platform`: it declares no platform, or
    /// declares this one.
    pub fn supports_platform(&self, platform: Platform) -> (r: bool)
        ensures
            r == supports(*self, platform),
    {
        let n: usize = self.supported_platforms.len();
        if n == 0 {
            return true;
        }
        let mut i: usize = 0;
        while i < n
            invariant
                n == self.supported_platforms@.len(),
                i <= n,
                forall|k: int| 0 <= k < i ==> self.supported_platforms@[k] != platform,
            decreases n - i,
        {
            if self.supported_platforms[i] == platform {
                return true;
            }
            i = i + 1;
        }
        false
    }

    /// Splits a dependency string `name` or `name@requirement`. The part after
    /// the first '@' counts as a requirement only where `semver` accepts it;
    /// otherwise the whole string is the name and there is no requirement.
    pub fn parse_dep(dep: &str) -> (r: (String, Option<VersionRequirement>))
        ensures
            r.0@ == dep_name(dep@),
            match r.1 {
                Some(q) => dep_requirement(dep@) == Some(q@),
                None => dep_requirement(dep@) is None,
            },
    {
        let chars = chars_of(dep);
        let k: usize = find_char(&chars, '@');
        proof {
            lemma_first_index_of(dep@, '@');
        }
        if k < chars.len() {
            let req_text = string_of_range(&chars, k + 1, chars.len());
            assert(req_text@ =~= dep@.skip(k + 1));
            match parse_semver_req(req_text.as_str()) {
                Ok(q) => {
                    let name = string_of_range(&chars, 0, k);
                    assert(name@ =~= dep@.take(k as int));
                    return (name, Some(q));
                },
                Err(_) => {},
            }
        }
        (String::from_str(dep), None)
    }
}

impl Clone for TechModule {
    fn clone(&self) -> (r: Self)
        ensures
            r@ == self@,
    {
        let deps = self.dependencies.clone();
        let caps = self.capabilities.clone();
        let plats = self.supported_platforms.clone();
        let tags = self.tags.clone();
        proof {
            assert(deps@ =~= self.dependencies@);
            assert(caps@ =~= self.capabilities@);
            assert(plats@ =~= self.supported_platforms@);
            assert(tags@ =~= self.tags@);
        }
        let r = TechModule {
            name: self.name.clone(),
            version: self.version.clone(),
            description: self.description.clone(),
            author: self.author.clone(),
            dependencies: deps,
            capabilities: caps,
            repository_url: self.repository_url.clone(),
            supported_platforms: plats,
            min_ram_mb: self.min_ram_mb,
            tags: tags,
        };
        assert(r@ =~= self@);
        r
    }
}

} // verus!
