use openconstruct_catalog::sort::sort_strings;
use openconstruct_catalog::{
    Catalog, CatalogError, CompatibilityChecker, CompatibilityReport, DependencyResolver,
    ModuleInstaller, Platform, RepoInfo, TechModule, Version, VersionRequirement, VersionResolver,
};

fn module(name: &str, version: &str) -> TechModule {
    TechModule::new(name.to_string(), version).unwrap()
}

fn names_of(v: &[TechModule]) -> Vec<String> {
    v.iter().map(|m| m.name.clone()).collect()
}

fn keys_of(v: &[TechModule]) -> Vec<String> {
    v.iter().map(|m| m.key()).collect()
}

// ── Laws on concrete values ─────────────────────────────────────────────────

#[test]
fn register_then_get_gives_the_module_back() {
    let mut cat = Catalog::new();
    let m = module("foo", "1.2.3-rc.1+b7")
        .description("d".to_string())
        .tags(vec!["t".to_string()])
        .min_ram_mb(12);
    cat.register(m).unwrap();
    let got = cat.get("foo", "1.2.3-rc.1+b7").unwrap();
    assert_eq!(got.name, "foo");
    assert_eq!(got.description, "d");
    assert_eq!(got.tags, vec!["t".to_string()]);
    assert_eq!(got.min_ram_mb, Some(12));
    assert_eq!(got.version.pre, "rc.1");
    assert_eq!(got.version.build, "b7");
}

#[test]
fn register_leaves_other_names_unchanged() {
    let mut cat = Catalog::new();
    cat.register(module("a", "1.0.0")).unwrap();
    cat.register(module("a", "1.1.0")).unwrap();
    cat.register(module("b", "3.0.0")).unwrap();
    let versions: Vec<String> = cat.get_versions("a").iter().map(|m| m.version.to_string()).collect();
    assert_eq!(versions, vec!["1.0.0", "1.1.0"]);
}

#[test]
fn register_then_unregister_restores_the_catalog() {
    let mut cat = Catalog::new();
    cat.register(module("a", "1.0.0")).unwrap();
    cat.register(module("b", "1.0.0")).unwrap();
    cat.register(module("a", "2.0.0")).unwrap();
    cat.unregister("a", "2.0.0").unwrap();
    assert_eq!(cat.module_names(), vec!["a", "b"]);
    assert_eq!(cat.total_count(), 2);
    cat.register(module("c", "1.0.0")).unwrap();
    cat.unregister("c", "1.0.0").unwrap();
    assert_eq!(cat.module_names(), vec!["a", "b"]);
    assert!(cat.get_versions("c").is_empty());
}

#[test]
fn unregister_last_version_removes_the_name() {
    let mut cat = Catalog::new();
    cat.register(module("a", "1.0.0")).unwrap();
    cat.unregister("a", "1.0.0").unwrap();
    assert!(cat.module_names().is_empty());
    assert!(matches!(cat.get_latest("a"), Err(CatalogError::ModuleNotFound(n)) if n == "a"));
}

#[test]
fn register_counts_one_more() {
    let mut cat = Catalog::new();
    assert_eq!(cat.total_count(), 0);
    cat.register(module("a", "1.0.0")).unwrap();
    assert_eq!(cat.total_count(), 1);
    cat.register(module("a", "1.0.1")).unwrap();
    assert_eq!(cat.total_count(), 2);
    assert!(cat.register(module("a", "1.0.1")).is_err());
    assert_eq!(cat.total_count(), 2);
}

#[test]
fn unregister_counts_one_less() {
    let mut cat = Catalog::new();
    cat.register(module("a", "1.0.0")).unwrap();
    cat.register(module("a", "1.0.1")).unwrap();
    cat.register(module("b", "1.0.0")).unwrap();
    cat.unregister("a", "1.0.0").unwrap();
    assert_eq!(cat.total_count(), 2);
    cat.unregister("b", "1.0.0").unwrap();
    assert_eq!(cat.total_count(), 1);
    assert_eq!(cat.module_names(), vec!["a"]);
}

#[test]
fn unregister_by_the_version_text_undoes_register() {
    let mut cat = Catalog::new();
    cat.register(module("a", "1.0.0")).unwrap();
    let m = module("a", "2.0.0-rc.1+b.7");
    let text = m.version.to_string();
    cat.register(m).unwrap();
    cat.unregister("a", text.as_str()).unwrap();
    let v: Vec<String> = cat.get_versions("a").iter().map(|m| m.version.to_string()).collect();
    assert_eq!(v, vec!["1.0.0"]);
}

#[test]
fn total_count_is_the_sum_over_names() {
    let mut cat = Catalog::new();
    cat.register(module("a", "1.0.0")).unwrap();
    cat.register(module("a", "2.0.0")).unwrap();
    cat.register(module("b", "1.0.0")).unwrap();
    let sum: usize = cat.module_names().iter().map(|n| cat.get_versions(n).len()).sum();
    assert_eq!(sum, 3);
    assert_eq!(cat.total_count(), sum);
}

#[test]
fn list_all_lines_up_with_module_names() {
    let mut cat = Catalog::new();
    cat.register(module("b", "1.0.0")).unwrap();
    cat.register(module("a", "1.0.0")).unwrap();
    cat.register(module("b", "1.2.0")).unwrap();
    let names = cat.module_names();
    let all = cat.list_all();
    assert_eq!(names.len(), all.len());
    for (n, m) in names.iter().zip(all.iter()) {
        assert_eq!(&m.name, n);
        assert_eq!(m.version.to_string(), cat.get_latest(n).unwrap().version.to_string());
    }
}

#[test]
fn latest_is_the_greatest_version() {
    let mut cat = Catalog::new();
    cat.register(module("foo", "1.0.0")).unwrap();
    cat.register(module("foo", "1.0.0-alpha")).unwrap();
    cat.register(module("foo", "0.9.9")).unwrap();
    assert_eq!(cat.get_latest("foo").unwrap().version.to_string(), "1.0.0");
    cat.register(module("foo", "1.0.0+b")).unwrap();
    cat.register(module("foo", "1.0.0+a")).unwrap();
    assert_eq!(cat.get_latest("foo").unwrap().version.to_string(), "1.0.0+b");
}

#[test]
fn best_version_heads_all_versions() {
    let mut cat = Catalog::new();
    for v in ["1.0.0", "1.4.2", "2.0.0", "1.4.10", "1.5.0-beta"] {
        cat.register(module("foo", v)).unwrap();
    }
    let best = VersionResolver::resolve_best("foo", ">=1.4", &cat).unwrap();
    let all = VersionResolver::resolve_all("foo", ">=1.4", &cat).unwrap();
    assert_eq!(best.version.to_string(), all[0].version.to_string());
    assert_eq!(best.version.to_string(), "2.0.0");
    let texts: Vec<String> = all.iter().map(|m| m.version.to_string()).collect();
    assert_eq!(texts, vec!["2.0.0", "1.4.10", "1.4.2"]);
}

#[test]
fn unrestricted_module_is_compatible_everywhere() {
    let m = module("foo", "1.0.0");
    for p in Platform::all() {
        let r = CompatibilityChecker::check(&m, p);
        assert!(r.compatible);
        assert!(r.issues.is_empty());
        assert_eq!(r.platform, p);
    }
}

#[test]
fn load_order_puts_dependencies_first() {
    let mut cat = Catalog::new();
    cat.register(module("app", "1.0.0").dependencies(vec!["ui@^1".into(), "net".into()])).unwrap();
    cat.register(module("ui", "1.2.0").dependencies(vec!["gfx".into()])).unwrap();
    cat.register(module("net", "0.3.0").dependencies(vec!["gfx@>=0.1".into()])).unwrap();
    cat.register(module("gfx", "0.1.0")).unwrap();
    let order = DependencyResolver::resolve("app", &cat).unwrap();
    assert_eq!(order, vec!["gfx", "ui", "net", "app"]);
}

#[test]
fn resolve_follows_latest_versions() {
    let mut cat = Catalog::new();
    cat.register(module("a", "1.0.0").dependencies(vec!["old".into()])).unwrap();
    cat.register(module("a", "2.0.0").dependencies(vec!["new".into()])).unwrap();
    cat.register(module("new", "1.0.0")).unwrap();
    let order = DependencyResolver::resolve("a", &cat).unwrap();
    assert_eq!(order, vec!["new", "a"]);
}

// ── Errors ──────────────────────────────────────────────────────────────────

#[test]
fn get_with_bad_version_is_parse_error() {
    let mut cat = Catalog::new();
    cat.register(module("foo", "1.0.0")).unwrap();
    assert!(matches!(cat.get("foo", "1.0"), Err(CatalogError::ParseError(_))));
}

#[test]
fn get_of_missing_version_names_it() {
    let mut cat = Catalog::new();
    cat.register(module("foo", "1.0.0")).unwrap();
    match cat.get("foo", "9.9.9") {
        Err(CatalogError::ModuleNotFound(n)) => assert_eq!(n, "foo@9.9.9"),
        _ => panic!("expected ModuleNotFound"),
    }
}

#[test]
fn unregister_errors() {
    let mut cat = Catalog::new();
    match cat.unregister("foo", "not a version") {
        Err(CatalogError::ModuleNotFound(n)) => assert_eq!(n, "foo"),
        _ => panic!("expected ModuleNotFound"),
    }
    cat.register(module("foo", "1.0.0")).unwrap();
    assert!(matches!(cat.unregister("foo", "x.y"), Err(CatalogError::ParseError(_))));
    match cat.unregister("foo", "2.0.0") {
        Err(CatalogError::ModuleNotFound(n)) => assert_eq!(n, "foo@2.0.0"),
        _ => panic!("expected ModuleNotFound"),
    }
    assert_eq!(cat.total_count(), 1);
}

#[test]
fn duplicate_register_carries_the_key() {
    let mut cat = Catalog::new();
    cat.register(module("foo", "1.0.0-rc.1")).unwrap();
    match cat.register(module("foo", "1.0.0-rc.1")) {
        Err(CatalogError::ModuleAlreadyExists(k)) => assert_eq!(k, "foo@1.0.0-rc.1"),
        _ => panic!("expected ModuleAlreadyExists"),
    }
}

#[test]
fn resolve_best_errors() {
    let mut cat = Catalog::new();
    cat.register(module("foo", "1.0.0")).unwrap();
    match VersionResolver::resolve_best("foo", "not a req", &cat) {
        Err(CatalogError::ParseError(msg)) => assert!(msg.starts_with("invalid version req 'not a req': ")),
        _ => panic!("expected ParseError"),
    }
    match VersionResolver::resolve_best("bar", "^1", &cat) {
        Err(CatalogError::ModuleNotFound(n)) => assert_eq!(n, "bar"),
        _ => panic!("expected ModuleNotFound"),
    }
    match VersionResolver::resolve_best("foo", "^2", &cat) {
        Err(CatalogError::NoSatisfyingVersion(n, q)) => {
            assert_eq!(n, "foo");
            assert_eq!(q, "^2");
        }
        _ => panic!("expected NoSatisfyingVersion"),
    }
}

#[test]
fn resolve_all_errors_and_empty_result() {
    let mut cat = Catalog::new();
    cat.register(module("foo", "1.0.0")).unwrap();
    assert!(matches!(VersionResolver::resolve_all("foo", "~~", &cat), Err(CatalogError::ParseError(_))));
    assert!(matches!(VersionResolver::resolve_all("bar", "*", &cat), Err(CatalogError::ModuleNotFound(_))));
    assert!(VersionResolver::resolve_all("foo", ">1", &cat).unwrap().is_empty());
}

#[test]
fn resolve_reports_missing_dependency_by_name() {
    let mut cat = Catalog::new();
    cat.register(module("a", "1.0.0").dependencies(vec!["b".into()])).unwrap();
    cat.register(module("b", "1.0.0").dependencies(vec!["gone@^1".into()])).unwrap();
    match DependencyResolver::resolve("a", &cat) {
        Err(CatalogError::ModuleNotFound(n)) => assert_eq!(n, "gone"),
        _ => panic!("expected ModuleNotFound"),
    }
    match DependencyResolver::resolve("zzz", &cat) {
        Err(CatalogError::ModuleNotFound(n)) => assert_eq!(n, "zzz"),
        _ => panic!("expected ModuleNotFound"),
    }
}

#[test]
fn unmet_requirement_is_a_version_conflict() {
    let mut cat = Catalog::new();
    cat.register(module("a", "1.0.0").dependencies(vec!["b@>=2.0.0".into()])).unwrap();
    cat.register(module("b", "1.0.0")).unwrap();
    cat.register(module("b", "1.5.0")).unwrap();
    match DependencyResolver::resolve("a", &cat) {
        Err(CatalogError::VersionConflict { module, required, available }) => {
            assert_eq!(module, "b");
            assert_eq!(required, ">=2.0.0");
            assert_eq!(available, "1.5.0");
        }
        _ => panic!("expected VersionConflict"),
    }
    assert!(matches!(
        ModuleInstaller::plan_install("a", &cat),
        Err(CatalogError::VersionConflict { .. })
    ));
}

#[test]
fn requirement_met_by_an_older_version_resolves() {
    let mut cat = Catalog::new();
    cat.register(module("a", "1.0.0").dependencies(vec!["b@<2".into(), "c".into()])).unwrap();
    cat.register(module("b", "1.0.0")).unwrap();
    cat.register(module("b", "3.0.0")).unwrap();
    cat.register(module("c", "1.0.0").dependencies(vec!["b@^3".into()])).unwrap();
    let order = DependencyResolver::resolve("a", &cat).unwrap();
    assert_eq!(order, vec!["b", "c", "a"]);
}

#[test]
fn missing_dependency_comes_before_its_requirement() {
    let mut cat = Catalog::new();
    cat.register(module("a", "1.0.0").dependencies(vec!["b@^9".into()])).unwrap();
    match DependencyResolver::resolve("a", &cat) {
        Err(CatalogError::ModuleNotFound(n)) => assert_eq!(n, "b"),
        _ => panic!("expected ModuleNotFound"),
    }
}

#[test]
fn cycle_names_the_root() {
    let mut cat = Catalog::new();
    cat.register(module("a", "1.0.0").dependencies(vec!["b".into()])).unwrap();
    cat.register(module("b", "1.0.0").dependencies(vec!["c".into()])).unwrap();
    cat.register(module("c", "1.0.0").dependencies(vec!["b".into()])).unwrap();
    assert!(DependencyResolver::detect_cycles("a", &cat));
    match DependencyResolver::resolve("a", &cat) {
        Err(CatalogError::CircularDependency(n)) => assert_eq!(n, "a"),
        _ => panic!("expected CircularDependency"),
    }
}

#[test]
fn dependency_tree_errors_and_edges() {
    let mut cat = Catalog::new();
    assert!(matches!(DependencyResolver::dependency_tree("a", &cat), Err(CatalogError::ModuleNotFound(_))));
    cat.register(module("a", "1.0.0").dependencies(vec!["b".into(), "c".into(), "ext".into()])).unwrap();
    cat.register(module("b", "1.0.0").dependencies(vec!["d".into()])).unwrap();
    cat.register(module("c", "1.0.0").dependencies(vec!["d".into()])).unwrap();
    cat.register(module("d", "1.0.0")).unwrap();
    let tree = DependencyResolver::dependency_tree("a", &cat).unwrap();
    assert_eq!(tree.len(), 4);
    assert_eq!(tree.get("a").unwrap(), &vec!["b".to_string(), "c".to_string(), "ext".to_string()]);
    assert_eq!(tree.get("d").unwrap().len(), 0);
    assert!(!tree.contains_key("ext"));
}

#[test]
fn best_and_all_of_marked_versions() {
    let vs = vec![
        module("m", "1.0.0"),
        module("m", "2.0.0"),
        module("m", "1.5.0"),
        module("m", "2.0.0+b"),
        module("m", "1.5.0-rc.1"),
    ];
    let marks = vec![true, false, true, true, true];
    assert_eq!(VersionResolver::best_marked(&vs, &marks), Some(3));
    let all: Vec<String> = VersionResolver::all_marked(&vs, &marks).iter().map(|m| m.version.to_string()).collect();
    assert_eq!(all, vec!["2.0.0+b", "1.5.0", "1.5.0-rc.1", "1.0.0"]);
    let none = vec![false; 5];
    assert_eq!(VersionResolver::best_marked(&vs, &none), None);
    assert!(VersionResolver::all_marked(&vs, &none).is_empty());
    let ties = vec![module("m", "1.0.0"), module("n", "1.0.0")];
    assert_eq!(VersionResolver::best_marked(&ties, &vec![true, true]), Some(0));
}

#[test]
fn parse_errors_carry_semver_messages() {
    let expected = semver::Version::parse("1.x").unwrap_err().to_string();
    match TechModule::new("m".to_string(), "1.x") {
        Err(CatalogError::ParseError(msg)) => assert_eq!(msg, expected),
        _ => panic!("expected ParseError"),
    }
    let mut cat = Catalog::new();
    cat.register(module("m", "1.0.0")).unwrap();
    match cat.get("m", "1.x") {
        Err(CatalogError::ParseError(msg)) => assert_eq!(msg, expected),
        _ => panic!("expected ParseError"),
    }
    let detail = semver::VersionReq::parse("=>1").unwrap_err().to_string();
    match VersionResolver::resolve_best("m", "=>1", &cat) {
        Err(CatalogError::ParseError(msg)) => {
            assert_eq!(msg, format!("invalid version req '=>1': {}", detail))
        }
        _ => panic!("expected ParseError"),
    }
}

#[test]
fn dependency_tree_names_first_missing_breadth_first() {
    let cat = Catalog::from_groups(vec![
        ("a".to_string(), vec![module("a", "1.0.0").dependencies(vec!["b".into(), "c".into()])]),
        ("c".to_string(), vec![]),
        ("b".to_string(), vec![]),
    ])
    .unwrap();
    match DependencyResolver::dependency_tree("a", &cat) {
        Err(CatalogError::ModuleNotFound(n)) => assert_eq!(n, "b"),
        _ => panic!("expected ModuleNotFound"),
    }
    let cat = Catalog::from_groups(vec![
        ("a".to_string(), vec![module("a", "1.0.0").dependencies(vec!["x".into(), "c".into()])]),
        ("x".to_string(), vec![module("x", "1.0.0").dependencies(vec!["b".into()])]),
        ("c".to_string(), vec![]),
        ("b".to_string(), vec![]),
    ])
    .unwrap();
    match DependencyResolver::dependency_tree("a", &cat) {
        Err(CatalogError::ModuleNotFound(n)) => assert_eq!(n, "c"),
        _ => panic!("expected ModuleNotFound"),
    }
}

// ── Compatibility reports ───────────────────────────────────────────────────

#[test]
fn report_texts() {
    let m = module("foo", "1.0.0-beta").supported_platforms(vec![Platform::Desktop]).min_ram_mb(128);
    let r = CompatibilityReport::new(&m, Platform::Embedded);
    assert_eq!(r.module_name, "foo");
    assert_eq!(r.module_version, "1.0.0-beta");
    assert!(!r.compatible);
    assert_eq!(r.issues, vec!["Module foo does not declare support for embedded".to_string()]);
    assert_eq!(
        r.warnings,
        vec!["Module requires 128MB RAM \u{2014} may exceed typical embedded constraints".to_string()]
    );
    let m = module("bar", "2.0.0").min_ram_mb(1024);
    let r = CompatibilityChecker::check(&m, Platform::Browser);
    assert_eq!(r.warnings, vec!["Module requires 1024MB RAM \u{2014} may impact browser performance".to_string()]);
}

#[test]
fn ram_warning_thresholds() {
    let at_limit = module("e", "1.0.0").min_ram_mb(64);
    assert!(CompatibilityChecker::check(&at_limit, Platform::Embedded).warnings.is_empty());
    let browser_limit = module("b", "1.0.0").min_ram_mb(512);
    assert!(CompatibilityChecker::check(&browser_limit, Platform::Browser).warnings.is_empty());
    let big = module("c", "1.0.0").min_ram_mb(1_000_000);
    assert!(CompatibilityChecker::check(&big, Platform::Cloud).warnings.is_empty());
    assert!(CompatibilityChecker::check(&big, Platform::Desktop).warnings.is_empty());
    assert_eq!(CompatibilityChecker::check(&big, Platform::Embedded).warnings.len(), 1);
}

#[test]
fn check_all_of_nothing_is_empty() {
    let none: Vec<TechModule> = Vec::new();
    assert!(CompatibilityChecker::check_all(&none, Platform::Cloud).is_empty());
}

// ── Search and listing ──────────────────────────────────────────────────────

#[test]
fn search_lowercases_query_and_fields() {
    let mut cat = Catalog::new();
    cat.register(module("Renderer", "1.0.0")).unwrap();
    cat.register(module("ÉCOLE", "1.0.0")).unwrap();
    assert_eq!(cat.search("RENDER").len(), 1);
    assert_eq!(names_of(&cat.search("école")), vec!["ÉCOLE"]);
    assert_eq!(names_of(&cat.search("ÉCO")), vec!["ÉCOLE"]);
}

#[test]
fn search_finds_every_module_by_its_name() {
    let mut cat = Catalog::new();
    for (n, v) in [("Alpha", "1.0.0"), ("beta-Σ", "0.2.0"), ("gamma", "3.1.4")] {
        cat.register(module(n, v)).unwrap();
    }
    for n in ["Alpha", "beta-Σ", "gamma"] {
        assert!(cat.search(n).iter().any(|m| m.name == n));
    }
}

#[test]
fn search_orders_all_versions_greatest_first() {
    let mut cat = Catalog::new();
    cat.register(module("foo", "1.0.0")).unwrap();
    cat.register(module("bar", "3.0.0").capabilities(vec!["foo-like".into()])).unwrap();
    cat.register(module("foo", "2.0.0-alpha")).unwrap();
    let found: Vec<String> = cat.search("foo").iter().map(|m| m.key()).collect();
    assert_eq!(found, vec!["bar@3.0.0", "foo@2.0.0-alpha", "foo@1.0.0"]);
}

#[test]
fn names_sort_by_code_point() {
    let mut cat = Catalog::new();
    for n in ["beta", "Zed", "alpha", "_x"] {
        cat.register(module(n, "1.0.0")).unwrap();
    }
    assert_eq!(cat.module_names(), vec!["Zed", "_x", "alpha", "beta"]);
    assert_eq!(names_of(&cat.list_all()), vec!["Zed", "_x", "alpha", "beta"]);
    let sorted = sort_strings(vec!["b".to_string(), "a".to_string(), "C".to_string(), "a".to_string()]);
    assert_eq!(sorted, vec!["C", "a", "a", "b"]);
}

#[test]
fn get_versions_in_registration_order() {
    let mut cat = Catalog::new();
    cat.register(module("foo", "2.0.0")).unwrap();
    cat.register(module("foo", "1.0.0")).unwrap();
    let v: Vec<String> = cat.get_versions("foo").iter().map(|m| m.version.to_string()).collect();
    assert_eq!(v, vec!["2.0.0", "1.0.0"]);
    assert!(cat.get_versions("nope").is_empty());
}

// ── Repository metadata ─────────────────────────────────────────────────────

#[test]
fn repo_defaults_and_topics() {
    let repos = vec![RepoInfo {
        name: Some("r".to_string()),
        description: None,
        html_url: None,
        topics: vec![Some("a".to_string()), None, Some("b".to_string())],
        version: Some("not-semver".to_string()),
        owner_login: None,
    }];
    let cat = Catalog::from_github_repos(&repos).unwrap();
    let m = cat.get_latest("r").unwrap();
    assert_eq!(m.version.to_string(), "0.1.0");
    assert_eq!(m.description, "");
    assert_eq!(m.repository_url, "");
    assert_eq!(m.author, "unknown");
    assert_eq!(m.tags, vec!["a".to_string(), "b".to_string()]);
    assert_eq!(m.capabilities, m.tags);
}

#[test]
fn repo_duplicate_fails() {
    let repo = || RepoInfo {
        name: None,
        description: None,
        html_url: None,
        topics: vec![],
        version: None,
        owner_login: None,
    };
    match Catalog::from_github_repos(&[repo(), repo()]) {
        Err(CatalogError::ModuleAlreadyExists(k)) => assert_eq!(k, "unknown@0.1.0"),
        _ => panic!("expected ModuleAlreadyExists"),
    }
}

#[test]
fn from_groups_checks_names_and_versions() {
    let ok = Catalog::from_groups(vec![
        ("a".to_string(), vec![module("a", "1.0.0")]),
        ("b".to_string(), vec![module("b", "1.0.0"), module("b", "2.0.0")]),
    ])
    .unwrap();
    assert_eq!(ok.total_count(), 3);
    assert!(Catalog::from_groups(vec![("a".to_string(), vec![]), ("a".to_string(), vec![])]).is_err());
    let mut bad = module("c", "1.0.0");
    bad.version.pre = "bad..pre".to_string();
    assert!(Catalog::from_groups(vec![("c".to_string(), vec![bad])]).is_err());
}

// ── Install planning ────────────────────────────────────────────────────────

#[test]
fn plan_install_keys_in_order() {
    let mut cat = Catalog::new();
    cat.register(module("core", "1.0.0")).unwrap();
    cat.register(module("math", "1.0.0").dependencies(vec!["core".into()])).unwrap();
    cat.register(module("renderer", "2.0.0").dependencies(vec!["core".into(), "math".into()])).unwrap();
    let plan = ModuleInstaller::plan_install("renderer", &cat).unwrap();
    assert_eq!(keys_of(&plan), vec!["core@1.0.0", "math@1.0.0", "renderer@2.0.0"]);
}

#[test]
fn plan_install_diamond_once_each() {
    let mut cat = Catalog::new();
    cat.register(module("a", "1.0.0").dependencies(vec!["b".into(), "c".into()])).unwrap();
    cat.register(module("b", "1.0.0").dependencies(vec!["d".into()])).unwrap();
    cat.register(module("c", "1.0.0").dependencies(vec!["d".into()])).unwrap();
    cat.register(module("d", "1.0.0")).unwrap();
    cat.register(module("d", "1.1.0")).unwrap();
    let plan = ModuleInstaller::plan_install("a", &cat).unwrap();
    assert_eq!(keys_of(&plan), vec!["d@1.1.0", "b@1.0.0", "c@1.0.0", "a@1.0.0"]);
}

#[test]
fn plan_install_errors() {
    let mut cat = Catalog::new();
    cat.register(module("a", "1.0.0").dependencies(vec!["a".into()])).unwrap();
    assert!(matches!(ModuleInstaller::plan_install("a", &cat), Err(CatalogError::CircularDependency(_))));
    assert!(matches!(ModuleInstaller::plan_install("b", &cat), Err(CatalogError::ModuleNotFound(_))));
}

// ── Versions, requirements and dependency strings ───────────────────────────

#[test]
fn version_parse_parts_and_text() {
    let v = Version::parse("10.20.30-alpha.1+exp.sha.5114f85").unwrap();
    assert_eq!((v.major(), v.minor(), v.patch()), (10, 20, 30));
    assert_eq!(v.pre, "alpha.1");
    assert_eq!(v.build, "exp.sha.5114f85");
    assert_eq!(v.to_string(), "10.20.30-alpha.1+exp.sha.5114f85");
    assert!(v.is_valid());
    assert!(Version::parse("1.2").is_err());
    assert!(Version::parse("01.2.3").is_err());
    assert_eq!(Version::new(0, 1, 0).to_string(), "0.1.0");
    assert!(Version::new(1, 2, 3).equals(&Version::parse("1.2.3").unwrap()));
}

#[test]
fn version_validity_follows_semver() {
    let mut v = Version::new(1, 0, 0);
    v.pre = "01".to_string();
    assert!(!v.is_valid());
    v.pre = "rc-1.x".to_string();
    assert!(v.is_valid());
    v.build = "a+b".to_string();
    assert!(!v.is_valid());
}

#[test]
fn requirement_parse_and_match() {
    assert!(VersionRequirement::parse("not a req").is_none());
    let q = VersionRequirement::parse(">=1.2, <2").unwrap();
    assert_eq!(q.as_str(), ">=1.2, <2");
    assert!(q.matches(&Version::parse("1.9.9").unwrap()));
    assert!(!q.matches(&Version::parse("2.0.0").unwrap()));
    assert!(!q.matches(&Version::parse("1.5.0-rc.1").unwrap()));
    let caret = VersionRequirement::parse("^0.2.3").unwrap();
    assert!(caret.matches(&Version::parse("0.2.9").unwrap()));
    assert!(!caret.matches(&Version::parse("0.3.0").unwrap()));
}

#[test]
fn parse_dep_splits_at_first_at_sign() {
    let (n, q) = TechModule::parse_dep("core@>=1.0, <3");
    assert_eq!(n, "core");
    assert_eq!(q.unwrap().as_str(), ">=1.0, <3");
    let (n, q) = TechModule::parse_dep("core@not a req");
    assert_eq!(n, "core@not a req");
    assert!(q.is_none());
    let (n, q) = TechModule::parse_dep("a@b@^1");
    assert_eq!(n, "a@b@^1");
    assert!(q.is_none());
    let (n, q) = TechModule::parse_dep("@*");
    assert_eq!(n, "");
    assert!(q.is_some());
}

#[test]
fn module_key_and_builders() {
    let m = module("x", "1.0.0-pre+build")
        .author("me".to_string())
        .repository_url("u".to_string())
        .capabilities(vec!["c".into()]);
    assert_eq!(m.key(), "x@1.0.0-pre+build");
    assert_eq!(m.author, "me");
    assert_eq!(m.repository_url, "u");
    assert_eq!(m.capabilities, vec!["c".to_string()]);
    assert!(m.supports_platform(Platform::Embedded));
    assert_eq!(Platform::Cloud.as_str(), "cloud");
}
