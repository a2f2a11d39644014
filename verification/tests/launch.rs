use axum::http::HeaderMap;
use multi_server::environment::Environment;
use multi_server::error::SiteError;
use multi_server::launch::{
    expand_runtime_variables, launch_needs, launch_step, readiness_ready, start_process,
    upstream_url, LaunchNeeds, LaunchSeen, LaunchStep, ProbeOutcome, ReadinessProbe,
    RuntimeVariables,
};
use multi_server::manifest::{Domains, Lifecycle, Limits, Manifest, Network, Readiness, Serve};
use multi_server::namespace::{
    cleanup_command, create_namespace, namespace_address, namespace_addresses, namespace_step,
    NamespaceStep,
};
use multi_server::path::FilePath;
use multi_server::process::{
    prepare_site, start_refused, terminate_process_group, Preparation, ProgramEnd, StopSeen, StopStep,
};
use multi_server::reply::ReplyBody;
use multi_server::request::RequestHead;
use multi_server::resolver::ResolvedSite;
use multi_server::service::Upstream;
use multi_server::stdio::{
    finish_stdio, header_variable_name, output_cap, run_stdio, StdioEnd, StdioStep,
};

fn texts(list: &[&str]) -> Vec<String> {
    list.iter().map(|text| text.to_string()).collect()
}

fn site(serve: Serve) -> ResolvedSite {
    ResolvedSite {
        domain: "example.com".to_string(),
        manifest_directory: FilePath::from_text("/sites/example.com"),
        directory: FilePath::from_text("/srv/app"),
        runtime_key: FilePath::from_text("/sites/example.com"),
        manifest: Manifest {
            version: 1,
            site_root: "/srv/app".to_string(),
            domains: Domains::default(),
            serve,
            routes: Vec::new(),
            prepare: Vec::new(),
            lifecycle: Lifecycle::default(),
            limits: Limits::default(),
        },
    }
}

fn http(port: Option<u16>, readiness: Readiness, network: Network) -> Serve {
    Serve::Http {
        command: texts(&["./server", "--port", "${PORT}"]),
        environment: Environment::new()
            .with("ROOT".to_string(), "${SITE_ROOT}/data".to_string())
            .with("PORT".to_string(), "none".to_string()),
        working_directory: Some("web".to_string()),
        port_environment: "PORT".to_string(),
        port,
        upstream_host: "${DOMAIN}".to_string(),
        startup_timeout_seconds: 15,
        readiness,
        network,
    }
}

fn stdio() -> Serve {
    Serve::Stdio {
        command: texts(&["sh", "hello.sh"]),
        environment: Environment::new().with("A".to_string(), "1".to_string()),
        working_directory: None,
        timeout_seconds: 30,
    }
}

fn variable<'a>(environment: &'a Environment, name: &str) -> Option<&'a str> {
    environment.list().iter().find(|entry| entry.0 == name).map(|entry| entry.1.as_str())
}

#[test]
fn expands_generic_runtime_variables() {
    let root = FilePath::from_text("/raiz/example.com");
    let variables = RuntimeVariables { port: 32123, domain: "example.com", site_root: &root };
    assert_eq!(
        expand_runtime_variables(
            "${SITE_ROOT}/server --domain=${DOMAIN} --port=${PORT}",
            &variables
        ),
        "/raiz/example.com/server --domain=example.com --port=32123"
    );
}

#[test]
fn other_text_is_not_expanded() {
    let root = FilePath::from_text("/r");
    let variables = RuntimeVariables { port: 1, domain: "d", site_root: &root };
    assert_eq!(expand_runtime_variables("plain", &variables), "plain");
    assert_eq!(expand_runtime_variables("$PORT ${port} ${", &variables), "$PORT ${port} ${");
    assert_eq!(expand_runtime_variables("${PORT}${PORT}", &variables), "11");
    assert_eq!(expand_runtime_variables("$${PORT}", &variables), "$1");
    let once = expand_runtime_variables("${PO${PORT}${DOMAIN}${SITE_ROOT}RT}", &variables);
    assert_eq!(once, "${PO1d/rRT}");
    assert_eq!(expand_runtime_variables(&once, &variables), once);
}

#[test]
fn a_process_is_started_with_everything_expanded() {
    let site = site(http(None, Readiness::Tcp, Network::Host));
    let plan = start_process(&site, 4567, &None).unwrap();
    assert_eq!(plan.invocation.program, "./server");
    assert_eq!(plan.invocation.arguments, ["--port", "4567"]);
    assert_eq!(plan.invocation.directory.to_text(), "/srv/app/web");
    assert_eq!(variable(&plan.invocation.environment, "ROOT"), Some("/srv/app/data"));
    assert_eq!(variable(&plan.invocation.environment, "PORT"), Some("4567"));
    assert_eq!((plan.upstream.host.as_str(), plan.upstream.port), ("example.com", 4567));
    assert!(matches!(plan.probe, ReadinessProbe::Connect));
    assert_eq!(plan.program, "./server");
}

#[test]
fn a_start_goes_on_until_the_process_is_ready() {
    let site = site(http(None, Readiness::Tcp, Network::Host));
    let plan = start_process(&site, 4567, &None).unwrap();
    let step = |seen: LaunchSeen| launch_step(&plan, &None, 10, seen);
    assert!(matches!(step(LaunchSeen::Spawned), LaunchStep::Probe));
    assert!(matches!(
        step(LaunchSeen::Probed(ProbeOutcome::Failed)),
        LaunchStep::Wait { milliseconds: 50 }
    ));
    match step(LaunchSeen::Probed(ProbeOutcome::Connected)) {
        LaunchStep::Done(upstream) => assert_eq!(upstream.port, 4567),
        other => panic!("unexpected {other:?}"),
    }
}

#[test]
fn a_start_that_fails_is_taken_down() {
    let site = site(http(None, Readiness::Tcp, Network::Namespace));
    let namespace = Some("ms00000001".to_string());
    let plan = start_process(&site, 4567, &namespace).unwrap();
    match launch_step(&plan, &namespace, 10, LaunchSeen::NotSpawned) {
        LaunchStep::Abandon { terminate, release, error } => {
            assert_eq!(terminate, None);
            assert_eq!(release.unwrap(), ["netns", "del", "ms00000001"]);
            assert_eq!(error.message(), "failed to start ./server");
        }
        other => panic!("unexpected {other:?}"),
    }
    match launch_step(&plan, &None, 10, LaunchSeen::TimedOut) {
        LaunchStep::Abandon { terminate, release, error } => {
            assert_eq!(terminate, Some(10));
            assert!(release.is_none());
            assert_eq!(
                error.message(),
                "site did not become ready on 10.203.0.6:4567 within 15s"
            );
        }
        other => panic!("unexpected {other:?}"),
    }
    match launch_step(&plan, &namespace, 10, LaunchSeen::TimedOut) {
        LaunchStep::Abandon { release, .. } => assert!(release.is_some()),
        other => panic!("unexpected {other:?}"),
    }
}

#[test]
fn the_time_of_a_start_is_shown_like_a_duration() {
    for seconds in [0u64, 1, 15, 3600, u64::MAX] {
        let error = SiteError::NotReady { host: "h".to_string(), port: 1, seconds };
        let expected = std::time::Duration::from_secs(seconds);
        assert_eq!(error.message(), format!("site did not become ready on h:1 within {expected:?}"));
    }
    let error = SiteError::NotReady { host: "h".to_string(), port: 1, seconds: 0 };
    assert_eq!(error.message(), "site did not become ready on h:1 within 0ns");
}

#[test]
fn a_handler_with_an_empty_command_is_refused_where_it_does_not_belong() {
    let mut empty = stdio();
    if let Serve::Stdio { command, .. } = &mut empty {
        command.clear();
    }
    assert!(matches!(start_process(&site(empty), 1, &None), Err(SiteError::NoProcess)));
}

#[test]
fn a_process_in_a_namespace_is_run_by_ip() {
    let readiness = Readiness::Http { path: "/health".to_string(), status: 204 };
    let site = site(http(Some(8080), readiness, Network::Namespace));
    let needs = launch_needs(&site.manifest.serve).unwrap();
    assert_eq!(needs, LaunchNeeds { port: Some(8080), namespace: true });
    let plan = start_process(&site, 8080, &Some("ms00000102".to_string())).unwrap();
    assert_eq!(plan.invocation.program, "ip");
    assert_eq!(
        plan.invocation.arguments,
        ["netns", "exec", "ms00000102", "./server", "--port", "8080"]
    );
    assert_eq!(plan.upstream.host, "10.203.1.10");
    match &plan.probe {
        ReadinessProbe::Request { url, status } => {
            assert_eq!(url, "http://10.203.1.10:8080/health");
            assert_eq!(*status, 204);
        }
        other => panic!("unexpected {other:?}"),
    }
    assert!(readiness_ready(&plan.probe, &ProbeOutcome::Answered(204)));
    assert!(!readiness_ready(&plan.probe, &ProbeOutcome::Answered(200)));
    assert!(!readiness_ready(&plan.probe, &ProbeOutcome::Connected));
}

#[test]
fn a_fastcgi_process_has_a_free_port_and_is_ready_once_it_listens() {
    let serve = Serve::Fastcgi {
        command: texts(&["php-cgi", "-b", "127.0.0.1:${PORT}"]),
        environment: Environment::new(),
        working_directory: None,
        port_environment: "FCGI".to_string(),
        upstream_host: "127.0.0.1".to_string(),
        startup_timeout_seconds: 3,
        document_root: ".".to_string(),
        front_controller: "index.php".to_string(),
    };
    assert_eq!(launch_needs(&serve).unwrap(), LaunchNeeds { port: None, namespace: false });
    let plan = start_process(&site(serve), 9000, &None).unwrap();
    assert_eq!(plan.invocation.arguments, ["-b", "127.0.0.1:9000"]);
    assert_eq!(plan.invocation.directory.to_text(), "/srv/app");
    assert_eq!(variable(&plan.invocation.environment, "FCGI"), Some("9000"));
    assert_eq!(plan.timeout_seconds, 3);
    assert!(readiness_ready(&plan.probe, &ProbeOutcome::Connected));
    assert!(!readiness_ready(&plan.probe, &ProbeOutcome::Failed));
}

#[test]
fn other_handlers_start_no_process() {
    let error = launch_needs(&stdio()).unwrap_err();
    assert_eq!(error.message(), "serve mode does not start a persistent process");
    assert!(matches!(start_process(&site(stdio()), 1, &None), Err(SiteError::NoProcess)));
}

#[test]
fn an_upstream_has_an_address() {
    let upstream = Upstream { host: "localhost".to_string(), port: 80 };
    assert_eq!(upstream_url(&upstream, "/a?b"), "http://localhost:80/a?b");
}

#[test]
fn a_namespace_has_two_addresses() {
    let (host, guest) = namespace_addresses(0x0000_ff3f);
    assert_eq!(host, "10.203.255.253/30");
    assert_eq!(guest, "10.203.255.254/30");
    assert_eq!(namespace_addresses(0).1, "10.203.0.2/30");
    assert_eq!(namespace_address("ms0000ff3f"), "10.203.255.254");
    assert_eq!(namespace_address("msms00000001"), "10.203.0.6");
    assert_eq!(namespace_address("nonsense"), "10.203.0.2");
}

#[test]
fn a_namespace_is_set_up_and_removed_by_ip() {
    let plan = create_namespace(0x0a);
    assert_eq!(plan.namespace, "ms0000000a");
    let commands: Vec<String> = plan.commands.iter().map(|command| command.join(" ")).collect();
    assert_eq!(
        commands,
        [
            "netns add ms0000000a",
            "link add mh0000000a type veth peer name mn0000000a",
            "link set mn0000000a netns ms0000000a",
            "addr add 10.203.0.41/30 dev mh0000000a",
            "link set mh0000000a up",
            "netns exec ms0000000a ip link set lo up",
            "netns exec ms0000000a ip addr add 10.203.0.42/30 dev mn0000000a",
            "netns exec ms0000000a ip link set mn0000000a up",
        ]
    );
    assert_eq!(cleanup_command(&plan.namespace), ["netns", "del", "ms0000000a"]);
    assert_eq!(namespace_address(&plan.namespace), "10.203.0.42");
}

#[test]
fn a_namespace_is_set_up_step_by_step() {
    let plan = create_namespace(1);
    assert_eq!(plan.leftover_removal(), ["netns", "del", "ms00000001"]);
    let mut ends = Vec::new();
    for command in &plan.commands {
        match namespace_step(&plan, &ends) {
            NamespaceStep::Run(next) => assert_eq!(&next, command),
            other => panic!("unexpected {other:?}"),
        }
        ends.push(true);
    }
    match namespace_step(&plan, &ends) {
        NamespaceStep::Ready(name) => assert_eq!(name, "ms00000001"),
        other => panic!("unexpected {other:?}"),
    }
}

#[test]
fn a_failed_command_removes_the_namespace() {
    let plan = create_namespace(1);
    match namespace_step(&plan, &vec![true, false]) {
        NamespaceStep::Remove { command, error } => {
            assert_eq!(command, ["netns", "del", "ms00000001"]);
            assert_eq!(
                error.message(),
                "failed to configure network namespace ms00000001"
            );
        }
        other => panic!("unexpected {other:?}"),
    }
}

#[test]
fn a_site_is_prepared_step_by_step() {
    let mut site = site(stdio());
    site.manifest.prepare = vec![texts(&["python3", "-m", "venv"]), texts(&["pip"])];
    let good = || ProgramEnd::Exited { success: true, status: "exit status: 0".to_string() };
    let mut ends = Vec::new();
    match prepare_site(&site, &ends) {
        Preparation::Run(run) => {
            assert_eq!(run.program, "python3");
            assert_eq!(run.arguments, ["-m", "venv"]);
            assert_eq!(run.directory.to_text(), "/srv/app");
            assert!(run.environment.list().is_empty());
        }
        other => panic!("unexpected {other:?}"),
    }
    ends.push(good());
    match prepare_site(&site, &ends) {
        Preparation::Run(run) => assert_eq!(run.program, "pip"),
        other => panic!("unexpected {other:?}"),
    }
    ends.push(good());
    assert!(matches!(prepare_site(&site, &ends), Preparation::Done));
}

#[test]
fn a_failed_command_ends_the_preparation() {
    let mut site = site(stdio());
    site.manifest.prepare = vec![texts(&["make", "all"]), texts(&["pip"])];
    let failed = ProgramEnd::Exited { success: false, status: "exit status: 2".to_string() };
    match prepare_site(&site, &vec![failed]) {
        Preparation::Failed(error) => {
            assert_eq!(error.message(), "prepare command make exited with exit status: 2")
        }
        other => panic!("unexpected {other:?}"),
    }
    match prepare_site(&site, &vec![ProgramEnd::NotStarted]) {
        Preparation::Failed(error) => {
            assert_eq!(error.message(), "failed to run prepare command make")
        }
        other => panic!("unexpected {other:?}"),
    }
}

#[test]
fn a_process_group_is_asked_before_it_is_killed() {
    assert_eq!(
        terminate_process_group(Some(7), 10, StopSeen::Nothing),
        StopStep::Terminate { group: 7, grace_seconds: 10 }
    );
    assert_eq!(terminate_process_group(Some(7), 10, StopSeen::Exited), StopStep::Finished);
    assert_eq!(
        terminate_process_group(Some(7), 10, StopSeen::StillRunning),
        StopStep::KillGroup { group: 7 }
    );
    assert_eq!(terminate_process_group(None, 10, StopSeen::Nothing), StopStep::KillChild);
}

#[test]
fn a_program_is_run_with_the_request_in_its_variables() {
    let mut headers = HeaderMap::new();
    headers.insert("x-some-thing", "v".parse().unwrap());
    headers.insert("host", "Example.com:80".parse().unwrap());
    headers.insert("x-bytes", axum::http::HeaderValue::from_bytes(&[200]).unwrap());
    let request = RequestHead {
        method: "PUT".to_string(),
        uri: "/p?a=b".to_string(),
        path: "/p".to_string(),
        query: Some("a=b".to_string()),
        version: "HTTP/1.1".to_string(),
        headers,
    };
    let run = run_stdio(&site(stdio()), &request, 12).unwrap();
    assert_eq!(run.program, "sh");
    assert_eq!(run.arguments, ["hello.sh"]);
    assert_eq!(run.directory.to_text(), "/srv/app");
    let get = |name: &str| variable(&run.environment, name);
    assert_eq!(get("A"), Some("1"));
    assert_eq!(get("REQUEST_METHOD"), Some("PUT"));
    assert_eq!(get("REQUEST_PATH"), Some("/p"));
    assert_eq!(get("QUERY_STRING"), Some("a=b"));
    assert_eq!(get("CONTENT_LENGTH"), Some("12"));
    assert_eq!(get("HTTP_X_SOME_THING"), Some("v"));
    assert_eq!(get("HTTP_HOST"), Some("Example.com:80"));
    assert_eq!(get("HTTP_X_BYTES"), None);
    assert_eq!(header_variable_name("accept-language"), "HTTP_ACCEPT_LANGUAGE");
    assert_eq!(start_refused(&run).message(), "failed to start sh");
    let other = site(http(None, Readiness::Tcp, Network::Host));
    assert_eq!(run_stdio(&other, &request, 0).unwrap_err().message(), "not a stdio service");
}

#[test]
fn a_request_without_host_gets_the_domain() {
    let request = RequestHead {
        method: "GET".to_string(),
        uri: "/".to_string(),
        path: "/".to_string(),
        query: None,
        version: "HTTP/1.0".to_string(),
        headers: HeaderMap::new(),
    };
    let run = run_stdio(&site(stdio()), &request, 0).unwrap();
    assert_eq!(variable(&run.environment, "HTTP_HOST"), Some("example.com"));
    assert_eq!(variable(&run.environment, "QUERY_STRING"), Some(""));
}

#[test]
fn the_end_of_a_program_makes_the_reply() {
    let ended = |success: bool, output: &[u8]| StdioEnd::Exited {
        success,
        status: "exit status: 1".to_string(),
        output: output.to_vec(),
    };
    let answer = |end: StdioEnd| match finish_stdio(end, 4) {
        StdioStep::Answer(reply) => reply,
        other => panic!("unexpected {other:?}"),
    };
    let error = |end: StdioEnd| answer(end).unwrap_err().message();
    match finish_stdio(StdioEnd::TimedOut, 4) {
        StdioStep::Terminate { grace_seconds, error } => {
            assert_eq!(grace_seconds, 1);
            assert_eq!(error.message(), "stdio site timed out");
        }
        other => panic!("unexpected {other:?}"),
    }
    assert_eq!(error(ended(false, b"")), "stdio site exited with exit status: 1");
    assert_eq!(error(ended(true, b"12345")), "stdio site exceeded its output limit");
    assert_eq!(error(ended(true, b"a\n\n")), "invalid stdio response header");
    let reply = answer(ended(true, b"1234")).unwrap();
    assert!(matches!(&reply.body, ReplyBody::Bytes(bytes) if bytes == b"1234"));
    assert_eq!(output_cap(4), 5);
    assert_eq!(output_cap(usize::MAX), usize::MAX as u64);
}
