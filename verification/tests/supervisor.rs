use axum::http::HeaderMap;
use multi_server::environment::Environment;
use multi_server::manifest::{
    default_activity_paths, default_front_controller, default_idle_timeout, default_indexes,
    default_max_concurrent_requests, default_port_environment, default_public,
    default_readiness_status, default_request_body_bytes, default_request_timeout,
    default_shutdown_grace, default_site_root, default_startup_timeout, default_stdio_output_bytes,
    default_upstream_host, find_route, manifest_version, Domains, Lifecycle, Limits, Manifest,
    Network, Readiness, Route, Serve,
};
use multi_server::path::FilePath;
use multi_server::reply::{Reply, ReplyBody};
use multi_server::request::RequestHead;
use multi_server::resolver::{Lookup, ResolvedSite};
use multi_server::service::{ServiceState, Upstream};
use multi_server::supervisor::{
    begin_answer, body_limit_message, path_is_activity, proxy_to_upstream, Admission, BodyMeter,
    Handling, Supervisor,
};

fn static_serve(root: &str) -> Serve {
    Serve::Static { root: root.to_string(), index: default_indexes() }
}

fn stdio_serve() -> Serve {
    Serve::Stdio {
        command: vec!["run".to_string()],
        environment: Environment::new(),
        working_directory: None,
        timeout_seconds: 1,
    }
}

fn http_serve() -> Serve {
    Serve::Http {
        command: vec!["run".to_string()],
        environment: Environment::new(),
        working_directory: None,
        port_environment: "PORT".to_string(),
        port: None,
        upstream_host: "127.0.0.1".to_string(),
        startup_timeout_seconds: 1,
        readiness: Readiness::Tcp,
        network: Network::Host,
    }
}

fn site(serve: Serve, routes: Vec<Route>) -> ResolvedSite {
    ResolvedSite {
        domain: "a.test".to_string(),
        manifest_directory: FilePath::from_text("/sites/a.test"),
        directory: FilePath::from_text("/sites/a.test/."),
        runtime_key: FilePath::from_text("/sites/a.test"),
        manifest: Manifest {
            version: 1,
            site_root: ".".to_string(),
            domains: Domains::default(),
            serve,
            routes,
            prepare: Vec::new(),
            lifecycle: Lifecycle::default(),
            limits: Limits::default(),
        },
    }
}

fn request(path: &str, fields: &[(&'static str, &str)]) -> RequestHead {
    let mut headers = HeaderMap::new();
    for (name, value) in fields {
        headers.insert(*name, value.parse().unwrap());
    }
    RequestHead {
        method: "GET".to_string(),
        uri: path.to_string(),
        path: path.to_string(),
        query: None,
        version: "HTTP/1.1".to_string(),
        headers,
    }
}

fn body(reply: &Reply) -> &[u8] {
    match &reply.body {
        ReplyBody::Bytes(bytes) => bytes,
        other => panic!("unexpected {other:?}"),
    }
}

fn paths(list: &[&str]) -> Vec<FilePath> {
    list.iter().map(|text| FilePath::from_text(text)).collect()
}

#[test]
fn a_key_keeps_its_service() {
    let mut supervisor = Supervisor::new(FilePath::from_text("/sites"));
    let a = supervisor.service_for(&FilePath::from_text("/sites/a"));
    let b = supervisor.service_for(&FilePath::from_text("/sites/b"));
    assert_eq!((a, b), (0, 1));
    assert_eq!(supervisor.service_for(&FilePath::from_text("/sites/a")), a);
    assert_eq!(supervisor.service_for(&FilePath::from_text("/sites/b")), b);
    assert_eq!(supervisor.service_for(&FilePath::from_text("/sites/a/")), a);
    assert_eq!(supervisor.service_for(&FilePath::from_text("/sites//./b")), b);
    assert_eq!(supervisor.service_for(&FilePath::from_text("/sites/c")), 2);
}

#[test]
fn only_a_manifest_change_reloads_and_only_nearby_services() {
    let mut supervisor = Supervisor::new(FilePath::from_text("/sites"));
    supervisor.service_for(&FilePath::from_text("/sites/a"));
    supervisor.service_for(&FilePath::from_text("/sites/b"));
    supervisor.service_for(&FilePath::from_text("/sites/a/.multi-server-route-0"));
    assert_eq!(supervisor.changed_services(&paths(&["/sites/a/site.json"])), [0, 2]);
    assert_eq!(supervisor.changed_services(&paths(&["/sites/b/site.json"])), [1]);
    assert!(supervisor.changed_services(&paths(&["/sites/a/upload.png"])).is_empty());
    assert!(supervisor.changed_services(&paths(&["/sites/a/site.json/x"])).is_empty());
    assert!(supervisor.changed_services(&paths(&["/sites/ab/site.json"])).is_empty());
    assert_eq!(
        supervisor.changed_services(&paths(&["/sites/site.json"])),
        [0, 1, 2],
        "a manifest above the sites concerns all of them"
    );
    assert_eq!(
        supervisor.changed_services(&paths(&["/sites/a/x", "/sites/b/site.json"])),
        [0, 1, 2]
    );
    assert!(supervisor.changed_services(&paths(&[])).is_empty());
}

#[test]
fn a_lookup_starts_from_the_host_field() {
    let supervisor = Supervisor::new(FilePath::from_text("/sites"));
    let search = supervisor.lookup(&request("/", &[("host", "A.test:80")])).unwrap();
    match search.next() {
        Lookup::Directory { directory, .. } => assert_eq!(directory.to_text(), "/sites/a.test"),
        Lookup::Aliases => panic!("no directory"),
    }
    let error = supervisor.lookup(&request("/", &[])).unwrap_err();
    assert_eq!(error.message(), "invalid Host header");
}

#[test]
fn an_unknown_domain_is_not_found() {
    let supervisor = Supervisor::new(FilePath::from_text("/sites"));
    match supervisor.handle(&request("/", &[]), None) {
        Handling::Answer(reply) => {
            assert_eq!(reply.status, 404);
            assert_eq!(body(&reply), b"unknown domain\n");
        }
        other => panic!("unexpected {other:?}"),
    }
}

#[test]
fn the_first_route_for_a_path_takes_over() {
    let routes = || {
        vec![
            Route {
                path_prefix: Some("/api/".to_string()),
                extensions: Vec::new(),
                serve: stdio_serve(),
            },
            Route {
                path_prefix: None,
                extensions: vec!["css".to_string(), "js".to_string()],
                serve: static_serve("assets"),
            },
            Route { path_prefix: Some("/".to_string()), extensions: Vec::new(), serve: http_serve() },
        ]
    };
    let list = routes();
    assert_eq!(find_route(&list, "/api/x.css"), Some(0));
    assert_eq!(find_route(&list, "/x.js"), Some(1));
    assert_eq!(find_route(&list, "/x.json"), Some(2));
    assert_eq!(find_route(&list, "x"), None);
    let supervisor = Supervisor::new(FilePath::from_text("/sites"));
    let handle = |path: &str| {
        supervisor.handle(&request(path, &[]), Some(site(static_serve("public"), routes())))
    };
    match handle("/api/x") {
        Handling::Stdio(after) => {
            assert_eq!(after.runtime_key.to_text(), "/sites/a.test/.multi-server-route-0");
            assert_eq!(after.domain, "a.test");
            assert_eq!(after.manifest.routes.len(), 3);
        }
        other => panic!("unexpected {other:?}"),
    }
    match handle("/x.css") {
        Handling::Static(after) => {
            assert!(matches!(&after.manifest.serve, Serve::Static { root, .. } if root == "assets"));
            assert_eq!(after.runtime_key.to_text(), "/sites/a.test/.multi-server-route-1");
            assert!(after.manifest.serve.is_runnable());
        }
        other => panic!("unexpected {other:?}"),
    }
    assert!(matches!(handle("/"), Handling::Proxy(_)));
    match handle("x") {
        Handling::Static(after) => assert_eq!(after.runtime_key.to_text(), "/sites/a.test"),
        other => panic!("unexpected {other:?}"),
    }
}

#[test]
fn requests_are_let_in_within_the_limits() {
    let mut site = site(http_serve(), Vec::new());
    site.manifest.limits = Limits {
        request_body_bytes: 10,
        stdio_output_bytes: 10,
        max_concurrent_requests: 1,
    };
    site.manifest.lifecycle.activity_paths = vec!["/api/".to_string()];
    let mut state = ServiceState::new(0);
    match begin_answer(&site, &request("/", &[("content-length", "11")]), &mut state, 1) {
        Admission::Refused(reply) => {
            assert_eq!(reply.status, 413);
            assert_eq!(body(&reply), b"request body too large\n");
        }
        other => panic!("unexpected {other:?}"),
    }
    assert_eq!(state.active_requests, 0);
    let admission = begin_answer(&site, &request("/api/x", &[("content-length", "10")]), &mut state, 2);
    assert!(matches!(admission, Admission::Admitted { renew_idle: true }));
    assert_eq!((state.active_requests, state.last_activity), (1, 2));
    match begin_answer(&site, &request("/", &[]), &mut state, 3) {
        Admission::Refused(reply) => {
            assert_eq!(reply.status, 503);
            assert_eq!(body(&reply), b"site concurrency limit reached\n");
        }
        other => panic!("unexpected {other:?}"),
    }
    state.end_request(false, 4);
    let admission = begin_answer(&site, &request("/", &[]), &mut state, 5);
    assert!(matches!(admission, Admission::Admitted { renew_idle: false }));
    assert_eq!(state.last_activity, 2);
}

#[test]
fn activity_is_told_by_the_beginning_of_a_path() {
    let mut site = site(http_serve(), Vec::new());
    site.manifest.lifecycle.activity_paths = vec!["/api/".to_string(), "/hls/".to_string()];
    assert!(path_is_activity(&site, "/hls/1"));
    assert!(!path_is_activity(&site, "/api"));
    site.manifest.lifecycle.activity_paths = Vec::new();
    assert!(!path_is_activity(&site, "/api/"));
}

#[test]
fn a_body_is_passed_on_up_to_its_limit() {
    let mut meter = BodyMeter::new(10);
    assert!(meter.take_chunk(4));
    assert!(meter.take_chunk(6));
    assert!(!meter.take_chunk(1));
    let mut meter = BodyMeter::new(usize::MAX - 1);
    assert!(meter.take_chunk(usize::MAX - 1));
    assert!(!meter.take_chunk(5));
    assert_eq!(meter.received, usize::MAX);
    assert_eq!(body_limit_message(), "request body limit exceeded");
}

#[test]
fn a_request_is_passed_on_without_connection_fields() {
    let upstream = Upstream { host: "127.0.0.1".to_string(), port: 4000 };
    let head = request("/", &[("connection", "x-a"), ("x-a", "1"), ("x-b", "2")]);
    let passed = proxy_to_upstream(&upstream, &Some("/a?b=c".to_string()), head.headers);
    assert_eq!(passed.url, "http://127.0.0.1:4000/a?b=c");
    assert_eq!(passed.headers.len(), 1);
    assert_eq!(passed.headers["x-b"], "2");
    let passed = proxy_to_upstream(&upstream, &None, HeaderMap::new());
    assert_eq!(passed.url, "http://127.0.0.1:4000/");
}

#[test]
fn a_manifest_has_defaults() {
    assert_eq!(manifest_version(), 1);
    assert_eq!(default_public(), "public");
    assert_eq!(default_indexes(), ["index.html"]);
    assert_eq!(default_port_environment(), "PORT");
    assert_eq!(default_startup_timeout(), 15);
    assert_eq!(default_idle_timeout(), 60);
    assert_eq!(default_request_timeout(), 30);
    assert_eq!(default_site_root(), ".");
    assert_eq!(default_upstream_host(), "127.0.0.1");
    assert_eq!(default_front_controller(), "index.php");
    assert_eq!(default_readiness_status(), 200);
    let lifecycle = Lifecycle::default();
    assert_eq!(lifecycle.idle_timeout_seconds, 60);
    assert_eq!(lifecycle.shutdown_grace_seconds, default_shutdown_grace());
    assert_eq!(lifecycle.activity_paths, default_activity_paths());
    let limits = Limits::default();
    assert_eq!(limits.request_body_bytes, default_request_body_bytes());
    assert_eq!(limits.stdio_output_bytes, default_stdio_output_bytes());
    assert_eq!(limits.max_concurrent_requests, default_max_concurrent_requests());
    assert!(matches!(Readiness::default(), Readiness::Tcp));
    assert_eq!(Network::default(), Network::Host);
    assert!(!Domains::default().subdomains);
    assert!(Domains::default().aliases.is_empty());
}
