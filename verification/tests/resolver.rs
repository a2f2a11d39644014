use multi_server::environment::Environment;
use multi_server::manifest::{Domains, Lifecycle, Limits, Manifest, ManifestError, ManifestSource, Route, Serve};
use multi_server::path::FilePath;
use multi_server::resolver::{
    load_site, normalize_host, resolve, resolve_alias, resolved_site, Lookup, Probe, Resolution,
    ResolveError, ResolveStep, ResolvedSite, ScanEvent, ScanStep,
};

fn static_manifest(subdomains: bool, aliases: &[&str], site_root: &str) -> Manifest {
    Manifest {
        version: 1,
        site_root: site_root.to_string(),
        domains: Domains {
            subdomains,
            aliases: aliases.iter().map(|alias| alias.to_string()).collect(),
        },
        serve: Serve::Static { root: "public".to_string(), index: vec!["index.html".to_string()] },
        routes: Vec::new(),
        prepare: Vec::new(),
        lifecycle: Lifecycle::default(),
        limits: Limits::default(),
    }
}

fn text(path: &FilePath) -> String {
    path.to_text()
}

fn directory_of(search: &Resolution) -> (String, bool) {
    match search.next() {
        Lookup::Directory { directory, require_subdomains } => (text(&directory), require_subdomains),
        Lookup::Aliases => panic!("no directory left"),
    }
}

fn go_on(step: ResolveStep) -> Resolution {
    match step {
        ResolveStep::Continue(rest) => rest,
        other => panic!("unexpected {other:?}"),
    }
}

fn found(step: ResolveStep) -> ResolvedSite {
    match step {
        ResolveStep::Found(site) => site,
        other => panic!("unexpected {other:?}"),
    }
}

#[test]
fn host_normalization_rejects_paths() {
    assert!(normalize_host("example.com/../../etc").is_err());
    assert_eq!(normalize_host("ELOI.ROTAVA.COM:8080").unwrap(), "eloi.rotava.com");
}

#[test]
fn resolves_aliases_and_external_site_roots() {
    let root = FilePath::from_text("/tmp/sites");
    let manifest_directory = root.join("canonical.test");
    let search = resolve(&root, "alias.test").unwrap();
    assert_eq!(directory_of(&search), ("/tmp/sites/alias.test".to_string(), false));
    let search = go_on(search.inspected(Probe::Missing));
    assert!(matches!(search.next(), Lookup::Aliases));
    assert!(matches!(
        search.scanned(ScanEvent::Site { directory: root.join("shared"), probe: Probe::Missing }),
        ScanStep::Continue
    ));
    let manifest = static_manifest(false, &["alias.test"], "../shared");
    let event = ScanEvent::Site {
        directory: manifest_directory.copy(),
        probe: Probe::Loaded(manifest),
    };
    let site = match search.scanned(event) {
        ScanStep::Found(site) => site,
        other => panic!("unexpected {other:?}"),
    };
    assert_eq!(text(&site.manifest_directory), text(&manifest_directory));
    assert_eq!(text(&site.directory), text(&root.join("canonical.test/../shared")));
    assert_eq!(site.domain, "alias.test");
}

#[test]
fn a_host_name_loses_space_dots_port_and_case() {
    assert_eq!(normalize_host("  Example.COM.. ").unwrap(), "example.com");
    assert_eq!(normalize_host("localhost:80").unwrap(), "localhost");
    assert_eq!(normalize_host("a-b.c").unwrap(), "a-b.c");
    let again = normalize_host("example.com").unwrap();
    assert_eq!(normalize_host(&again).unwrap(), again);
}

#[test]
fn bad_host_names_are_refused() {
    let long = "a".repeat(254);
    let fits = "a".repeat(253);
    for host in ["", " ", ":80", "a..b", ".a", "-a.b", "a-.b", "a_b", "\u{e9}.com", "a b", long.as_str()] {
        let error = normalize_host(host).unwrap_err();
        assert!(matches!(error, ResolveError::InvalidHost));
        assert_eq!(error.message(), "invalid Host header");
    }
    assert_eq!(normalize_host(&fits).unwrap(), fits);
}

#[test]
fn the_exact_directory_comes_first_then_the_parents() {
    let root = FilePath::from_text("sites");
    let search = resolve(&root, "a.b.example.com").unwrap();
    assert_eq!(directory_of(&search), ("sites/a.b.example.com".to_string(), false));
    let search = go_on(search.inspected(Probe::Missing));
    assert_eq!(directory_of(&search), ("sites/b.example.com".to_string(), true));
    let search = go_on(search.inspected(Probe::Loaded(static_manifest(false, &[], "."))));
    assert_eq!(directory_of(&search), ("sites/example.com".to_string(), true));
    let site = found(search.inspected(Probe::Loaded(static_manifest(true, &[], "."))));
    assert_eq!(site.domain, "a.b.example.com");
    assert_eq!(text(&site.manifest_directory), "sites/example.com");
    assert_eq!(text(&site.directory), "sites/example.com/.");
    assert_eq!(text(&site.runtime_key), "sites/example.com");
}

#[test]
fn an_exact_site_need_not_answer_for_subdomains() {
    let root = FilePath::from_text("sites");
    let search = resolve(&root, "example.com").unwrap();
    let site = found(search.inspected(Probe::Loaded(static_manifest(false, &[], "."))));
    assert_eq!(text(&site.manifest_directory), "sites/example.com");
}

#[test]
fn the_top_level_label_is_never_a_parent() {
    let root = FilePath::from_text("sites");
    let search = resolve(&root, "example.com").unwrap();
    let search = go_on(search.inspected(Probe::Missing));
    assert!(matches!(search.next(), Lookup::Aliases));
}

#[test]
fn a_search_ends_with_the_error_of_a_look() {
    let root = FilePath::from_text("sites");
    let search = resolve(&root, "example.com").unwrap();
    match search.inspected(Probe::Failed("denied".to_string())) {
        ResolveStep::Failed(error) => assert_eq!(error.message(), "failed to inspect site directory"),
        other => panic!("unexpected {other:?}"),
    }
    let search = resolve(&root, "example.com").unwrap();
    match search.inspected(Probe::Rejected(ManifestError::EmptyCommand)) {
        ResolveStep::Failed(error) => assert_eq!(error.message(), "serve.command cannot be empty"),
        other => panic!("unexpected {other:?}"),
    }
}

#[test]
fn a_walk_passes_what_holds_no_site() {
    assert!(matches!(resolve_alias("a.test", ScanEvent::Other), ScanStep::Continue));
    assert!(matches!(resolve_alias("a.test", ScanEvent::End), ScanStep::NotFound));
    assert!(matches!(resolve_alias("a.test", ScanEvent::NoDirectory), ScanStep::NotFound));
    let refused = ScanEvent::Site {
        directory: FilePath::from_text("d"),
        probe: Probe::Rejected(ManifestError::EmptyPrepare),
    };
    assert!(matches!(resolve_alias("a.test", refused), ScanStep::Continue));
    let other = ScanEvent::Site {
        directory: FilePath::from_text("d"),
        probe: Probe::Loaded(static_manifest(true, &["b.test"], ".")),
    };
    assert!(matches!(resolve_alias("a.test", other), ScanStep::Continue));
    match resolve_alias("a.test", ScanEvent::Failed("disk".to_string())) {
        ScanStep::Failed(error) => assert_eq!(error.message(), "disk"),
        other => panic!("unexpected {other:?}"),
    }
    let unsure = ScanEvent::Site {
        directory: FilePath::from_text("d"),
        probe: Probe::Failed("io".to_string()),
    };
    match resolve_alias("a.test", unsure) {
        ScanStep::Failed(error) => assert_eq!(error.message(), "io"),
        other => panic!("unexpected {other:?}"),
    }
}

#[test]
fn an_alias_is_compared_without_case_and_final_dots() {
    let event = ScanEvent::Site {
        directory: FilePath::from_text("d"),
        probe: Probe::Loaded(static_manifest(false, &["x", "WWW.Example.com.."], ".")),
    };
    assert!(matches!(resolve_alias("www.example.com", event), ScanStep::Found(_)));
}

#[test]
fn a_site_root_may_be_absolute() {
    let site = resolved_site(
        "a.test",
        FilePath::from_text("/sites/a.test"),
        static_manifest(false, &[], "/srv/a"),
    );
    assert_eq!(text(&site.directory), "/srv/a");
    assert_eq!(text(&site.manifest_directory), "/sites/a.test");
}

#[test]
fn a_parent_that_does_not_answer_is_passed() {
    let loaded = load_site(
        "b.a.test",
        FilePath::from_text("a.test"),
        true,
        Probe::Loaded(static_manifest(false, &[], ".")),
    );
    assert!(loaded.unwrap().is_none());
}

#[test]
fn a_manifest_is_loaded_or_refused() {
    let path = FilePath::from_text("/s/site.json");
    let refuse = |source: ManifestSource| Manifest::load(&path, source).unwrap_err().message();
    assert_eq!(refuse(ManifestSource::Unreadable), "failed to read /s/site.json");
    assert_eq!(refuse(ManifestSource::Malformed), "invalid manifest /s/site.json");
    let mut manifest = static_manifest(false, &[], ".");
    manifest.version = 2;
    assert_eq!(refuse(ManifestSource::Parsed(manifest)), "unsupported manifest version 2");
    let stdio = || Serve::Stdio {
        command: Vec::new(),
        environment: Environment::new(),
        working_directory: None,
        timeout_seconds: 30,
    };
    let mut manifest = static_manifest(false, &[], ".");
    manifest.serve = stdio();
    assert_eq!(refuse(ManifestSource::Parsed(manifest)), "serve.command cannot be empty");
    let mut manifest = static_manifest(false, &[], ".");
    manifest.routes.push(Route { path_prefix: None, extensions: Vec::new(), serve: stdio() });
    assert_eq!(refuse(ManifestSource::Parsed(manifest)), "serve.command cannot be empty");
    let mut manifest = static_manifest(false, &[], ".");
    manifest.prepare.push(Vec::new());
    assert_eq!(refuse(ManifestSource::Parsed(manifest)), "prepare commands cannot be empty");
    let manifest = static_manifest(true, &[], "x");
    let loaded = Manifest::load(&path, ManifestSource::Parsed(manifest)).unwrap();
    assert_eq!(loaded.site_root, "x");
    assert!(loaded.domains.subdomains);
}
