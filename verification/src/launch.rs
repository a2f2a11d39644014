//! How the process of a site is started, and when it is ready.

use vstd::prelude::*;
use vstd::utf8::encode_utf8;

use crate::environment::{assigned, Environment};
use crate::error::SiteError;
use crate::manifest::{Network, Readiness, Serve};
use crate::namespace::{address, cleanup_command, id_of, namespace_address, removal};
use crate::number::{decimal, decimal_text, law_number_is_written, lemma_digits_look,
    lemma_digits_read_back, number_char, number_value, worth, NumberError};
use crate::path::{joined, lossy_text, FilePath};
use crate::process::{invocation, program_directory, working_place, Invocation};
use crate::resolver::ResolvedSite;
use crate::service::Upstream;
use crate::text::{chars_of, replace, replaced, string_of, string_views};

verus! {

// ---------------------------------------------------------------------------
// Variables

/// What the variables in a manifest stand for.
#[derive(Debug)]
pub struct RuntimeVariables<'a> {
    /// The port of the process.
    pub port: u16,
    /// The host name of the request.
    pub domain: &'a str,
    /// The directory of the site.
    pub site_root: &'a FilePath,
}

/// What the variables in a manifest stand for, as values.
pub struct Expansion {
    /// The port of the process.
    pub port: u16,
    /// The host name of the request.
    pub domain: Seq<char>,
    /// The directory of the site.
    pub site_root: Seq<u8>,
}

impl<'a> View for RuntimeVariables<'a> {
    type V = Expansion;

    open spec fn view(&self) -> Expansion {
        Expansion { port: self.port, domain: self.domain@, site_root: self.site_root@ }
    }
}

impl Expansion {
    /// `value` with the variables replaced by what they stand for.
    pub open spec fn expands(self, value: Seq<char>) -> Seq<char> {
        replaced(
            replaced(
                replaced(value, "${PORT}"@, decimal_text(self.port as nat)),
                "${DOMAIN}"@,
                self.domain,
            ),
            "${SITE_ROOT}"@,
            lossy_text(self.site_root),
        )
    }

    /// What the variables make of a text.
    pub open spec fn expander(self) -> spec_fn(Seq<char>) -> Seq<char> {
        |value: Seq<char>| self.expands(value)
    }

    /// Every text of a list, expanded.
    pub open spec fn expands_all(self, values: Seq<Seq<char>>) -> Seq<Seq<char>> {
        values.map_values(self.expander())
    }

    /// Every value in an environment, expanded.
    pub open spec fn expands_values(self, environment: Map<Seq<char>, Seq<char>>) -> Map<
        Seq<char>,
        Seq<char>,
    > {
        environment.map_values(self.expander())
    }
}

/// `value` with the variables replaced by what they stand for: the port, the
/// host name and the directory of the site, one after the other.
pub fn expand_runtime_variables(value: &str, variables: &RuntimeVariables<'_>) -> (text: String)
    ensures
        text@ == variables@.expands(value@),
{
    proof {
        reveal_strlit("${PORT}");
        reveal_strlit("${DOMAIN}");
        reveal_strlit("${SITE_ROOT}");
    }
    let chars = chars_of(value);
    let port = decimal(variables.port as u64);
    let root = variables.site_root.to_text();
    let first = replace(
        chars.as_slice(),
        chars_of("${PORT}").as_slice(),
        chars_of(port.as_str()).as_slice(),
    );
    let second = replace(
        first.as_slice(),
        chars_of("${DOMAIN}").as_slice(),
        chars_of(variables.domain).as_slice(),
    );
    let third = replace(
        second.as_slice(),
        chars_of("${SITE_ROOT}").as_slice(),
        chars_of(root.as_str()).as_slice(),
    );
    string_of(third.as_slice())
}

fn expand_command(command: &Vec<String>, variables: &RuntimeVariables<'_>) -> (expanded: Vec<String>)
    ensures
        string_views(expanded@) == variables@.expands_all(string_views(command@)),
{
    let mut expanded: Vec<String> = Vec::new();
    let mut i: usize = 0;
    while i < command.len()
        invariant
            i <= command@.len(),
            expanded@.len() == i,
            forall|k: int|
                0 <= k < i ==> (#[trigger] expanded@[k])@ == variables@.expands(command@[k]@),
        decreases command@.len() - i,
    {
        expanded.push(expand_runtime_variables(command[i].as_str(), variables));
        i = i + 1;
    }
    assert(string_views(expanded@) =~= variables@.expands_all(string_views(command@)));
    expanded
}

fn expand_environment(environment: &Environment, variables: &RuntimeVariables<'_>) -> (expanded:
    Environment)
    ensures
        expanded@ == variables@.expands_values(environment@),
{
    let entries = environment.list();
    let mut expanded = Environment::new();
    assert(entries@.take(0) =~= Seq::empty());
    assert(expanded@ =~= variables@.expands_values(assigned(entries@.take(0))));
    let mut i: usize = 0;
    while i < entries.len()
        invariant
            i <= entries@.len(),
            expanded@ == variables@.expands_values(assigned(entries@.take(i as int))),
        decreases entries@.len() - i,
    {
        let name = entries[i].0.clone();
        let value = expand_runtime_variables(entries[i].1.as_str(), variables);
        proof {
            let before = assigned(entries@.take(i as int));
            assert(entries@.take(i + 1).drop_last() =~= entries@.take(i as int));
            assert(variables@.expands_values(before).insert(name@, value@)
                =~= variables@.expands_values(before.insert(name@, entries@[i as int].1@)));
        }
        expanded = expanded.with(name, value);
        i = i + 1;
    }
    assert(entries@.take(i as int) =~= entries@);
    expanded
}

// ---------------------------------------------------------------------------
// Starting

/// What a process needs before it can be started.
#[derive(Debug, PartialEq, Eq, Structural, Clone, Copy)]
pub struct LaunchNeeds {
    /// Its port, where that is fixed.
    pub port: Option<u16>,
    /// Whether it runs in a network namespace of its own.
    pub namespace: bool,
}

/// What a process needs before it can be started. Nothing for a handler that
/// has no process.
pub open spec fn needs(serve: Serve) -> Option<LaunchNeeds> {
    match serve {
        Serve::Http { port, network, .. } => Some(
            LaunchNeeds { port, namespace: network is Namespace },
        ),
        Serve::Fastcgi { .. } => Some(LaunchNeeds { port: None, namespace: false }),
        _ => None,
    }
}

/// What a process needs before it can be started.
pub fn launch_needs(serve: &Serve) -> (found: Result<LaunchNeeds, SiteError>)
    ensures
        match needs(*serve) {
            Some(n) => found == Ok::<_, SiteError>(n),
            None => found == Err::<LaunchNeeds, _>(SiteError::NoProcess),
        },
        serve matches Serve::Http { port, network, .. } ==> {
            &&& found matches Ok(n)
            &&& n.port == port
            &&& n.namespace <==> network == Network::Namespace
        },
        serve is Fastcgi ==> (found matches Ok(n) && n.port is None && !n.namespace),
        found is Ok <==> serve is Http || serve is Fastcgi,
{
    match serve {
        Serve::Http { port, network, .. } => {
            Ok(LaunchNeeds { port: *port, namespace: *network == Network::Namespace })
        },
        Serve::Fastcgi { .. } => Ok(LaunchNeeds { port: None, namespace: false }),
        _ => Err(SiteError::NoProcess),
    }
}

/// How it is found out whether a process is ready.
#[derive(Debug)]
pub enum ReadinessProbe {
    /// By a connection to it.
    Connect,
    /// By a request, whose answer has a given status.
    Request {
        /// What is requested.
        url: String,
        /// The status of the answer.
        status: u16,
    },
}

/// How a process is started.
#[derive(Debug)]
pub struct LaunchPlan {
    /// The program, as the manifest names it.
    pub program: String,
    /// The program to run.
    pub invocation: Invocation,
    /// Where the process will take requests.
    pub upstream: Upstream,
    /// How it is found out whether the process is ready.
    pub probe: ReadinessProbe,
    /// How long the process may take to become ready.
    pub timeout_seconds: u64,
}

/// The command that runs `command` in a namespace, or itself.
pub open spec fn in_namespace(command: Seq<Seq<char>>, namespace: Option<String>) -> Seq<Seq<char>> {
    match namespace {
        Some(name) => seq!["ip"@, "netns"@, "exec"@, name@] + command,
        None => command,
    }
}

/// The address of something that a process serves.
pub open spec fn url(host: Seq<char>, port: u16, path: Seq<char>) -> Seq<char> {
    "http://"@ + host + ":"@ + decimal_text(port as nat) + path
}

/// The address of something that a process serves.
pub fn upstream_url(upstream: &Upstream, path: &str) -> (text: String)
    ensures
        text@ == url(upstream.host@, upstream.port, path@),
{
    let port = decimal(upstream.port as u64);
    "http://".to_string().concat(upstream.host.as_str()).concat(":").concat(port.as_str()).concat(
        path,
    )
}

/// The host on which a process takes requests.
pub open spec fn upstream_host(
    variables: Expansion,
    configured: Seq<char>,
    namespace: Option<String>,
) -> Seq<char> {
    match namespace {
        Some(name) => address(id_of(name@) as u32, 2),
        None => variables.expands(configured),
    }
}

impl ReadinessProbe {
    /// Whether this is the probe for `readiness` of the process at that place.
    pub open spec fn is_for(self, readiness: Readiness, host: Seq<char>, port: u16) -> bool {
        match readiness {
            Readiness::Tcp => self is Connect,
            Readiness::Http { path, status } => self matches ReadinessProbe::Request {
                url: requested,
                status: expected,
            } && requested@ == url(host, port, path@) && expected == status,
        }
    }
}

impl LaunchPlan {
    /// Whether this is the plan for these settings of a handler.
    pub open spec fn follows(
        self,
        variables: Expansion,
        command: Seq<Seq<char>>,
        environment: Map<Seq<char>, Seq<char>>,
        working_directory: Option<String>,
        port_environment: Seq<char>,
        configured_host: Seq<char>,
        timeout_seconds: u64,
        readiness: Readiness,
        namespace: Option<String>,
    ) -> bool {
        let host = upstream_host(variables, configured_host, namespace);
        &&& self.program@ == command[0]
        &&& self.invocation.runs(
            in_namespace(variables.expands_all(command), namespace),
            working_place(variables.site_root, working_directory),
            variables.expands_values(environment).insert(
                port_environment,
                decimal_text(variables.port as nat),
            ),
        )
        &&& self.upstream.host@ == host
        &&& self.upstream.port == variables.port
        &&& self.probe.is_for(readiness, host, variables.port)
        &&& self.timeout_seconds == timeout_seconds
    }
}

fn plan_process(
    variables: &RuntimeVariables<'_>,
    command: &Vec<String>,
    environment: &Environment,
    working_directory: &Option<String>,
    port_environment: &String,
    configured_host: &String,
    timeout_seconds: u64,
    readiness: &Readiness,
    namespace: &Option<String>,
) -> (plan: LaunchPlan)
    requires
        command@.len() > 0,
    ensures
        plan.follows(
            variables@,
            string_views(command@),
            environment@,
            *working_directory,
            port_environment@,
            configured_host@,
            timeout_seconds,
            *readiness,
            *namespace,
        ),
{
    let expanded = expand_command(command, variables);
    let place = program_directory(variables.site_root, working_directory);
    let port = decimal(variables.port as u64);
    let variables_set = expand_environment(environment, variables).with(
        port_environment.clone(),
        port,
    );
    let ghost inner = variables@.expands_all(string_views(command@));
    let mut whole: Vec<String> = Vec::new();
    let host = match namespace {
        Some(name) => {
            whole.push("ip".to_string());
            whole.push("netns".to_string());
            whole.push("exec".to_string());
            whole.push(name.clone());
            namespace_address(name.as_str())
        },
        None => expand_runtime_variables(configured_host.as_str(), variables),
    };
    let ghost front = whole@;
    let mut i: usize = 0;
    while i < expanded.len()
        invariant
            i <= expanded@.len(),
            whole@ == front + expanded@.take(i as int),
        decreases expanded@.len() - i,
    {
        whole.push(expanded[i].clone());
        i = i + 1;
    }
    proof {
        assert(whole@ =~= front + expanded@);
        assert(string_views(whole@) =~= string_views(front) + string_views(expanded@));
        match namespace {
            Some(name) => {
                assert(string_views(front) =~= seq!["ip"@, "netns"@, "exec"@, name@]);
            },
            None => {
                assert(string_views(front) =~= Seq::empty());
            },
        }
        assert(string_views(whole@) =~= in_namespace(inner, *namespace));
    }
    let run = invocation(&whole, place, variables_set);
    let upstream = Upstream { host, port: variables.port };
    let probe = match readiness {
        Readiness::Tcp => ReadinessProbe::Connect,
        Readiness::Http { path, status } => {
            let requested = upstream_url(&upstream, path.as_str());
            ReadinessProbe::Request { url: requested, status: *status }
        },
    };
    LaunchPlan { program: command[0].clone(), invocation: run, upstream, probe, timeout_seconds }
}

/// What the variables stand for in the manifest of `site`.
pub open spec fn expansion(site: ResolvedSite, port: u16) -> Expansion {
    Expansion { port, domain: site.domain@, site_root: site.directory@ }
}

/// Whether `plan` is how the process of `site` is started on `port`.
pub open spec fn plans(
    site: ResolvedSite,
    port: u16,
    namespace: Option<String>,
    plan: Result<LaunchPlan, SiteError>,
) -> bool {
    match site.manifest.serve {
        Serve::Http {
            command,
            environment,
            working_directory,
            port_environment,
            upstream_host: configured_host,
            startup_timeout_seconds,
            readiness,
            ..
        } => plan matches Ok(made) && made.follows(
            expansion(site, port),
            string_views(command@),
            environment@,
            working_directory,
            port_environment@,
            configured_host@,
            startup_timeout_seconds,
            readiness,
            namespace,
        ),
        Serve::Fastcgi {
            command,
            environment,
            working_directory,
            port_environment,
            upstream_host: configured_host,
            startup_timeout_seconds,
            ..
        } => plan matches Ok(made) && made.follows(
            expansion(site, port),
            string_views(command@),
            environment@,
            working_directory,
            port_environment@,
            configured_host@,
            startup_timeout_seconds,
            Readiness::Tcp,
            namespace,
        ),
        _ => plan == Err::<LaunchPlan, _>(SiteError::NoProcess),
    }
}

/// How the process of a site is started on `port`, in `namespace` where it has
/// one: with the variables of the manifest expanded in its command, its
/// environment and its host, and with the port in its environment.
pub fn start_process(site: &ResolvedSite, port: u16, namespace: &Option<String>) -> (plan: Result<
    LaunchPlan,
    SiteError,
>)
    requires
        site.manifest.serve is Http || site.manifest.serve is Fastcgi
            ==> site.manifest.serve.runnable(),
    ensures
        plans(*site, port, *namespace, plan),
{
    let variables = RuntimeVariables {
        port,
        domain: site.domain.as_str(),
        site_root: &site.directory,
    };
    match &site.manifest.serve {
        Serve::Http {
            command,
            environment,
            working_directory,
            port_environment,
            upstream_host: configured_host,
            startup_timeout_seconds,
            readiness,
            ..
        } => Ok(
            plan_process(
                &variables,
                command,
                environment,
                working_directory,
                port_environment,
                configured_host,
                *startup_timeout_seconds,
                readiness,
                namespace,
            ),
        ),
        Serve::Fastcgi {
            command,
            environment,
            working_directory,
            port_environment,
            upstream_host: configured_host,
            startup_timeout_seconds,
            ..
        } => Ok(
            plan_process(
                &variables,
                command,
                environment,
                working_directory,
                port_environment,
                configured_host,
                *startup_timeout_seconds,
                &Readiness::Tcp,
                namespace,
            ),
        ),
        _ => Err(SiteError::NoProcess),
    }
}

// ---------------------------------------------------------------------------
// Until it is ready

/// What came of a probe.
#[derive(Debug)]
pub enum ProbeOutcome {
    /// It failed.
    Failed,
    /// The connection was made.
    Connected,
    /// The answer has this status.
    Answered(u16),
}

impl ReadinessProbe {
    /// Whether an outcome shows that the process is ready.
    pub open spec fn is_met_by(self, outcome: ProbeOutcome) -> bool {
        match self {
            ReadinessProbe::Connect => outcome is Connected,
            ReadinessProbe::Request { status, .. } => outcome == ProbeOutcome::Answered(status),
        }
    }
}

/// Whether a probe shows that the process is ready.
pub fn readiness_ready(probe: &ReadinessProbe, outcome: &ProbeOutcome) -> (ready: bool)
    ensures
        ready == probe.is_met_by(*outcome),
{
    match (probe, outcome) {
        (ReadinessProbe::Connect, ProbeOutcome::Connected) => true,
        (ReadinessProbe::Request { status, .. }, ProbeOutcome::Answered(got)) => *status == *got,
        _ => false,
    }
}

/// What has been seen of a process that is being started.
#[derive(Debug)]
pub enum LaunchSeen {
    /// Its program did not start.
    NotSpawned,
    /// Its program runs.
    Spawned,
    /// A probe had this outcome.
    Probed(ProbeOutcome),
    /// The time that it may take is over.
    TimedOut,
}

/// What is done next to start a process.
#[derive(Debug)]
pub enum LaunchStep {
    /// It is probed.
    Probe,
    /// It is given some time, and then probed again.
    Wait {
        /// The time.
        milliseconds: u64,
    },
    /// It is ready.
    Done(Upstream),
    /// The start has failed: what is there is taken down again.
    Abandon {
        /// The time that the process group is given to end, where there is one.
        terminate: Option<u64>,
        /// The arguments of `ip` that remove the namespace, where there is one.
        release: Option<Vec<String>>,
        /// The error.
        error: SiteError,
    },
}

/// Whether `release` removes `namespace`, where there is one.
pub open spec fn releases(namespace: Option<String>, release: Option<Vec<String>>) -> bool {
    match namespace {
        Some(name) => release matches Some(command) && string_views(command@) == removal(name@),
        None => release is None,
    }
}

/// What is done next to start a process by `plan`, once this was seen of it.
pub open spec fn next_launch(
    plan: LaunchPlan,
    namespace: Option<String>,
    grace_seconds: u64,
    seen: LaunchSeen,
    step: LaunchStep,
) -> bool {
    match seen {
        LaunchSeen::NotSpawned => {
            &&& step matches LaunchStep::Abandon { terminate, release, error }
            &&& terminate is None
            &&& releases(namespace, release)
            &&& error == (SiteError::NotStarted { program: plan.program })
        },
        LaunchSeen::Spawned => step is Probe,
        LaunchSeen::Probed(outcome) => if plan.probe.is_met_by(outcome) {
            step == LaunchStep::Done(plan.upstream)
        } else {
            step == (LaunchStep::Wait { milliseconds: 50 })
        },
        LaunchSeen::TimedOut => {
            &&& step matches LaunchStep::Abandon { terminate, release, error }
            &&& terminate == Some(grace_seconds)
            &&& releases(namespace, release)
            &&& error == (SiteError::NotReady {
                host: plan.upstream.host,
                port: plan.upstream.port,
                seconds: plan.timeout_seconds,
            })
        },
    }
}

/// What is done next to start a process by `plan`, once this was seen of it. A
/// program that does not start, or a process that is not ready in time, is taken
/// down again, with its namespace, and the start fails.
pub fn launch_step(
    plan: &LaunchPlan,
    namespace: &Option<String>,
    grace_seconds: u64,
    seen: LaunchSeen,
) -> (step: LaunchStep)
    ensures
        next_launch(*plan, *namespace, grace_seconds, seen, step),
{
    match seen {
        LaunchSeen::NotSpawned => LaunchStep::Abandon {
            terminate: None,
            release: release_command(namespace),
            error: SiteError::NotStarted { program: plan.program.clone() },
        },
        LaunchSeen::Spawned => LaunchStep::Probe,
        LaunchSeen::Probed(outcome) => {
            if readiness_ready(&plan.probe, &outcome) {
                LaunchStep::Done(plan.upstream.copy())
            } else {
                LaunchStep::Wait { milliseconds: 50 }
            }
        },
        LaunchSeen::TimedOut => LaunchStep::Abandon {
            terminate: Some(grace_seconds),
            release: release_command(namespace),
            error: SiteError::NotReady {
                host: plan.upstream.host.clone(),
                port: plan.upstream.port,
                seconds: plan.timeout_seconds,
            },
        },
    }
}

fn release_command(namespace: &Option<String>) -> (release: Option<Vec<String>>)
    ensures
        releases(*namespace, release),
{
    match namespace {
        Some(name) => Some(cleanup_command(name.as_str())),
        None => None,
    }
}

// ---------------------------------------------------------------------------
// Laws

/// A process is taken for started only once a probe has shown that it is ready.
/// A start that fails is an error, leaves no namespace, and leaves no process
/// group that was not asked to end.
pub proof fn law_started_only_when_ready(
    plan: LaunchPlan,
    namespace: Option<String>,
    grace_seconds: u64,
    seen: LaunchSeen,
    step: LaunchStep,
)
    requires
        next_launch(plan, namespace, grace_seconds, seen, step),
    ensures
        step is Done <==> (seen matches LaunchSeen::Probed(outcome) && plan.probe.is_met_by(
            outcome,
        )),
        step is Abandon <==> seen is NotSpawned || seen is TimedOut,
        step matches LaunchStep::Abandon { terminate, release, .. } ==> {
            &&& namespace is Some ==> release is Some
            &&& terminate is Some <==> seen is TimedOut
        },
{
}

/// The handlers that have no process start none.
pub proof fn law_no_process_no_plan(
    site: ResolvedSite,
    port: u16,
    namespace: Option<String>,
    plan: Result<LaunchPlan, SiteError>,
)
    requires
        plans(site, port, namespace, plan),
        site.manifest.serve is Static || site.manifest.serve is Stdio,
    ensures
        plan == Err::<LaunchPlan, _>(SiteError::NoProcess),
        needs(site.manifest.serve) is None,
{
}

/// Whether `pattern` stands somewhere in `text`.
pub open spec fn holds(text: Seq<char>, pattern: Seq<char>) -> bool {
    exists|at: int| 0 <= at <= text.len() && pattern.is_prefix_of(#[trigger] text.skip(at))
}

proof fn lemma_rest_holds(text: Seq<char>, pattern: Seq<char>, from: int)
    requires
        0 <= from <= text.len(),
        holds(text.skip(from), pattern),
    ensures
        holds(text, pattern),
{
    let rest = text.skip(from);
    let at = choose|at: int|
        0 <= at <= rest.len() && pattern.is_prefix_of(#[trigger] rest.skip(at));
    assert(rest.skip(at) =~= text.skip(from + at));
    assert(pattern.is_prefix_of(text.skip(from + at)));
}

proof fn lemma_holds_at_front(text: Seq<char>, pattern: Seq<char>)
    requires
        pattern.is_prefix_of(text),
    ensures
        holds(text, pattern),
{
    assert(text.skip(0) =~= text);
}

proof fn lemma_replaced_absent(text: Seq<char>, from: Seq<char>, to: Seq<char>)
    requires
        !holds(text, from),
    ensures
        replaced(text, from, to) == text,
    decreases text.len(),
{
    if text.len() > 0 && from.len() > 0 {
        if from.is_prefix_of(text) {
            lemma_holds_at_front(text, from);
        }
        let rest = text.drop_first();
        assert(rest =~= text.skip(1));
        if holds(rest, from) {
            lemma_rest_holds(text, from, 1);
        }
        lemma_replaced_absent(rest, from, to);
        assert(seq![text[0]] + rest =~= text);
    }
}

/// A character of a variable.
pub open spec fn variable_mark(c: char) -> bool {
    c == '$' || c == '{' || c == '}' || c == '_' || 'A' <= c <= 'Z'
}

/// Whether a text cannot make a part of a variable, wherever it is put: it is not
/// empty, does not begin like a part of one, and no variable begins in it.
pub open spec fn tame(text: Seq<char>) -> bool {
    &&& text.len() > 0
    &&& !variable_mark(text[0])
    &&& forall|i: int| 0 <= i < text.len() ==> #[trigger] text[i] != '$'
}

/// Whether a text looks like a variable: it begins with the only `$` in it.
pub open spec fn looks_variable(text: Seq<char>) -> bool {
    &&& text.len() > 0
    &&& text[0] == '$'
    &&& forall|i: int| 0 <= i < text.len() ==> variable_mark(#[trigger] text[i])
    &&& forall|i: int| 1 <= i < text.len() ==> #[trigger] text[i] != '$'
}

proof fn lemma_prefix_was_there(text: Seq<char>, from: Seq<char>, to: Seq<char>, part: Seq<char>)
    requires
        tame(to),
        forall|i: int| 0 <= i < part.len() ==> variable_mark(#[trigger] part[i]),
        part.is_prefix_of(replaced(text, from, to)),
    ensures
        part.is_prefix_of(text),
    decreases part.len(),
{
    let result = replaced(text, from, to);
    if part.len() == 0 {
        assert(text.subrange(0, 0) =~= part);
    } else if text.len() > 0 && from.len() > 0 {
        assert(part[0] == result[0]);
        if from.is_prefix_of(text) {
            assert(result[0] == to[0]);
            assert(variable_mark(part[0]));
        } else {
            let rest = text.drop_first();
            let more = part.drop_first();
            let behind = replaced(rest, from, to);
            assert(result == seq![text[0]] + behind);
            assert(more =~= behind.subrange(0, more.len() as int)) by {
                assert forall|i: int| 0 <= i < more.len() implies more[i] == behind[i] by {
                    assert(part[i + 1] == result[i + 1]);
                }
            }
            assert forall|i: int| 0 <= i < more.len() implies variable_mark(#[trigger] more[i]) by {
                assert(more[i] == part[i + 1]);
            }
            lemma_prefix_was_there(rest, from, to, more);
            assert(part =~= text.subrange(0, part.len() as int)) by {
                assert forall|i: int| 0 <= i < part.len() implies part[i] == text[i] by {
                    if i > 0 {
                        assert(more[i - 1] == rest[i - 1]);
                    }
                }
            }
        }
    }
}

proof fn lemma_replaced_holds_no(text: Seq<char>, from: Seq<char>, to: Seq<char>, variable: Seq<char>)
    requires
        tame(to),
        looks_variable(from),
        looks_variable(variable),
        variable == from || !holds(text, variable),
    ensures
        !holds(replaced(text, from, to), variable),
    decreases text.len(),
{
    let result = replaced(text, from, to);
    if holds(result, variable) {
        let at = choose|at: int|
            0 <= at <= result.len() && variable.is_prefix_of(#[trigger] result.skip(at));
        assert(result.skip(at)[0] == '$');
        assert(result[at] == '$');
        if text.len() == 0 {
            assert(result.len() == 0);
        } else {
            let width = if from.is_prefix_of(text) {
                from.len() as int
            } else {
                1
            };
            let rest = text.skip(width);
            if variable != from && holds(rest, variable) {
                lemma_rest_holds(text, variable, width);
            }
            lemma_replaced_holds_no(rest, from, to, variable);
            let behind = replaced(rest, from, to);
            if from.is_prefix_of(text) {
                assert(result == to + behind);
                if at < to.len() {
                    assert(to[at] == '$');
                } else {
                    assert(result.skip(at) =~= behind.skip(at - to.len()));
                    assert(holds(behind, variable));
                }
            } else {
                assert(text.drop_first() =~= rest);
                assert(result == seq![text[0]] + behind);
                if at > 0 {
                    assert(result.skip(at) =~= behind.skip(at - 1));
                    assert(holds(behind, variable));
                } else {
                    assert(result.skip(0) =~= result);
                    lemma_prefix_was_there(text, from, to, variable);
                    lemma_holds_at_front(text, variable);
                }
            }
        }
    }
}

proof fn lemma_variables()
    ensures
        looks_variable("${PORT}"@),
        looks_variable("${DOMAIN}"@),
        looks_variable("${SITE_ROOT}"@),
{
    reveal_strlit("${PORT}");
    reveal_strlit("${DOMAIN}");
    reveal_strlit("${SITE_ROOT}");
}

/// Whether none of the variables stands in a text.
pub open spec fn holds_no_variable(text: Seq<char>) -> bool {
    &&& !holds(text, "${PORT}"@)
    &&& !holds(text, "${DOMAIN}"@)
    &&& !holds(text, "${SITE_ROOT}"@)
}

/// A text without variables is left as it is.
pub proof fn law_plain_text_is_kept(variables: Expansion, value: Seq<char>)
    requires
        holds_no_variable(value),
    ensures
        variables.expands(value) == value,
{
    lemma_replaced_absent(value, "${PORT}"@, decimal_text(variables.port as nat));
    lemma_replaced_absent(value, "${DOMAIN}"@, variables.domain);
    lemma_replaced_absent(value, "${SITE_ROOT}"@, lossy_text(variables.site_root));
}

/// No variable is left in a text once it is expanded, and expanding it once more
/// changes nothing, unless the host name or the directory could itself make a
/// part of a variable.
pub proof fn law_expanded_once(variables: Expansion, value: Seq<char>)
    requires
        tame(variables.domain),
    ensures
        tame(lossy_text(variables.site_root)) ==> holds_no_variable(variables.expands(value))
            && variables.expands(variables.expands(value)) == variables.expands(value),
{
    if tame(lossy_text(variables.site_root)) {
        lemma_expanded_once(variables, value);
    }
}

proof fn lemma_expanded_once(variables: Expansion, value: Seq<char>)
    requires
        tame(variables.domain),
        tame(lossy_text(variables.site_root)),
    ensures
        holds_no_variable(variables.expands(value)),
        variables.expands(variables.expands(value)) == variables.expands(value),
{
    let port = decimal_text(variables.port as nat);
    let domain = variables.domain;
    let root = lossy_text(variables.site_root);
    let a = replaced(value, "${PORT}"@, port);
    let b = replaced(a, "${DOMAIN}"@, domain);
    lemma_variables();
    lemma_digits_look(variables.port as nat, 10);
    assert(tame(port)) by {
        assert forall|i: int| 0 <= i < port.len() implies #[trigger] port[i] != '$' by {
            assert(number_char(port[i], 10));
        }
        assert(number_char(port[0], 10));
    }
    lemma_replaced_holds_no(value, "${PORT}"@, port, "${PORT}"@);
    lemma_replaced_holds_no(a, "${DOMAIN}"@, domain, "${PORT}"@);
    lemma_replaced_holds_no(a, "${DOMAIN}"@, domain, "${DOMAIN}"@);
    lemma_replaced_holds_no(b, "${SITE_ROOT}"@, root, "${PORT}"@);
    lemma_replaced_holds_no(b, "${SITE_ROOT}"@, root, "${DOMAIN}"@);
    lemma_replaced_holds_no(b, "${SITE_ROOT}"@, root, "${SITE_ROOT}"@);
    law_plain_text_is_kept(variables, variables.expands(value));
}

/// The port that a process needs is the one that the manifest gives, and none in
/// particular where it gives none, whatever the network of the process is. It
/// runs in a namespace if and only if the manifest says so.
pub proof fn law_port_is_that_of_manifest(serve: Serve, p: u16)
    ensures
        serve matches Serve::Http { port, network, .. } ==> {
            &&& needs(serve) matches Some(n)
            &&& n.port == Some(p) <==> port == Some(p)
            &&& n.port is None <==> port is None
            &&& n.namespace <==> network == Network::Namespace
        },
        serve is Fastcgi ==> (needs(serve) matches Some(n) && n.port is None && !n.namespace),
        serve is Static || serve is Stdio ==> needs(serve) is None,
{
}

/// Two processes with the same port in their manifests need the same port, also
/// where only one of them runs in a namespace.
pub proof fn law_network_leaves_port(a: Serve, b: Serve)
    requires
        a is Http,
        b is Http,
        a->Http_port == b->Http_port,
    ensures
        needs(a) is Some,
        needs(b) is Some,
        needs(a)->Some_0.port == needs(b)->Some_0.port,
{
}

/// A text without the character that begins a variable.
pub open spec fn no_dollar(text: Seq<char>) -> bool {
    forall|i: int| 0 <= i < text.len() ==> #[trigger] text[i] != '$'
}

proof fn lemma_replaced_behind(front: Seq<char>, back: Seq<char>, from: Seq<char>, to: Seq<char>)
    requires
        no_dollar(front),
        from.len() > 0,
        from[0] == '$',
    ensures
        replaced(front + back, from, to) == front + replaced(back, from, to),
    decreases front.len(),
{
    let text = front + back;
    if front.len() == 0 {
        assert(text =~= back);
        assert(front + replaced(back, from, to) =~= replaced(back, from, to));
    } else {
        let less = front.drop_first();
        assert(text[0] == front[0]);
        if from.is_prefix_of(text) {
            assert(from[0] == text[0]);
        }
        assert forall|i: int| 0 <= i < less.len() implies #[trigger] less[i] != '$' by {
            assert(less[i] == front[i + 1]);
        }
        assert(text.drop_first() =~= less + back);
        lemma_replaced_behind(less, back, from, to);
        assert(seq![text[0]] + (less + replaced(back, from, to)) =~= front + replaced(
            back,
            from,
            to,
        ));
    }
}

proof fn lemma_replaced_at(front: Seq<char>, back: Seq<char>, from: Seq<char>, to: Seq<char>)
    requires
        no_dollar(front),
        from.len() > 0,
        from[0] == '$',
    ensures
        replaced(front + from + back, from, to) == front + to + replaced(back, from, to),
{
    assert(front + from + back =~= front + (from + back));
    lemma_replaced_behind(front, from + back, from, to);
    let rest = from + back;
    assert(rest.subrange(0, from.len() as int) =~= from);
    assert(rest.skip(from.len() as int) =~= back);
    assert(front + (to + replaced(back, from, to)) =~= front + to + replaced(back, from, to));
}

proof fn lemma_other_variable_stays(
    front: Seq<char>,
    variable: Seq<char>,
    back: Seq<char>,
    from: Seq<char>,
    to: Seq<char>,
)
    requires
        no_dollar(front),
        looks_variable(variable),
        looks_variable(from),
        variable.len() > 2,
        from.len() > 2,
        variable[2] != from[2],
    ensures
        replaced(front + variable + back, from, to) == front + variable + replaced(back, from, to),
{
    let rest = variable + back;
    assert(front + variable + back =~= front + rest);
    lemma_replaced_behind(front, rest, from, to);
    if from.is_prefix_of(rest) {
        assert(from[2] == rest[2]);
    }
    let inner = variable.drop_first();
    assert forall|i: int| 0 <= i < inner.len() implies #[trigger] inner[i] != '$' by {
        assert(inner[i] == variable[i + 1]);
    }
    assert(rest.drop_first() =~= inner + back);
    lemma_replaced_behind(inner, back, from, to);
    assert(replaced(rest, from, to) =~= variable + replaced(back, from, to));
    assert(front + (variable + replaced(back, from, to)) =~= front + variable + replaced(
        back,
        from,
        to,
    ));
}

/// A variable is replaced where it stands, by the port in decimal, by the host
/// name and by the directory of the site. What stands before it stays, and what
/// follows is expanded too.
pub proof fn law_variable_is_replaced(variables: Expansion, front: Seq<char>, back: Seq<char>)
    requires
        no_dollar(front),
    ensures
        variables.expands(front + "${PORT}"@ + back) == front + decimal_text(
            variables.port as nat,
        ) + variables.expands(back),
        no_dollar(variables.domain) ==> variables.expands(front + "${DOMAIN}"@ + back) == front
            + variables.domain + variables.expands(back),
        variables.expands(front + "${SITE_ROOT}"@ + back) == front + lossy_text(
            variables.site_root,
        ) + variables.expands(back),
{
    reveal_strlit("${PORT}");
    reveal_strlit("${DOMAIN}");
    reveal_strlit("${SITE_ROOT}");
    lemma_variables();
    let port = decimal_text(variables.port as nat);
    let domain = variables.domain;
    let root = lossy_text(variables.site_root);
    let a = replaced(back, "${PORT}"@, port);
    let b = replaced(a, "${DOMAIN}"@, domain);
    lemma_digits_look(variables.port as nat, 10);
    assert forall|i: int| 0 <= i < (front + port).len() implies #[trigger] (front + port)[i]
        != '$' by {
        if i >= front.len() {
            assert(number_char(port[i - front.len()], 10));
        }
    }
    lemma_replaced_at(front, back, "${PORT}"@, port);
    lemma_replaced_behind(front + port, a, "${DOMAIN}"@, domain);
    lemma_replaced_behind(front + port, b, "${SITE_ROOT}"@, root);

    lemma_other_variable_stays(front, "${DOMAIN}"@, back, "${PORT}"@, port);
    lemma_replaced_at(front, a, "${DOMAIN}"@, domain);
    if no_dollar(domain) {
        assert forall|i: int| 0 <= i < (front + domain).len() implies #[trigger] (front + domain)[i]
            != '$' by {}
        lemma_replaced_behind(front + domain, b, "${SITE_ROOT}"@, root);
    }

    lemma_other_variable_stays(front, "${SITE_ROOT}"@, back, "${PORT}"@, port);
    lemma_other_variable_stays(front, "${SITE_ROOT}"@, a, "${DOMAIN}"@, domain);
    lemma_replaced_at(front, b, "${SITE_ROOT}"@, root);
}

/// The variables are replaced in turn, each wherever it stands: the port first,
/// the host name in what that leaves, and the directory in what that leaves.
pub proof fn law_replaced_in_turn(variables: Expansion, value: Seq<char>)
    ensures
        ({
            let first = replaced(value, "${PORT}"@, decimal_text(variables.port as nat));
            let second = replaced(first, "${DOMAIN}"@, variables.domain);
            variables.expands(value) == replaced(
                second,
                "${SITE_ROOT}"@,
                lossy_text(variables.site_root),
            )
        }),
{
}

/// The texts of a list, and the values in an environment, are expanded one by
/// one; the names in an environment stay.
pub proof fn law_expanded_one_by_one(
    variables: Expansion,
    values: Seq<Seq<char>>,
    environment: Map<Seq<char>, Seq<char>>,
)
    ensures
        variables.expands_all(values).len() == values.len(),
        forall|i: int|
            0 <= i < values.len() ==> #[trigger] variables.expands_all(values)[i]
                == variables.expands(values[i]),
        variables.expands_values(environment).dom() == environment.dom(),
        forall|name: Seq<char>| #[trigger]
            environment.dom().contains(name) ==> variables.expands_values(environment)[name]
                == variables.expands(environment[name]),
{
    assert(variables.expands_values(environment).dom() =~= environment.dom());
}

/// The address of something that a process serves: the scheme, the host, the
/// port in decimal and the path.
pub proof fn law_address_of_process(host: Seq<char>, port: u16, path: Seq<char>)
    ensures
        exists|number: Seq<char>|
            url(host, port, path) == "http://"@ + host + seq![':'] + number + path && #[trigger] worth(
                number,
                10,
            ) == port && forall|i: int|
                0 <= i < number.len() ==> '0' <= #[trigger] number[i] <= '9',
{
    reveal_strlit(":");
    let number = decimal_text(port as nat);
    law_number_is_written(port as nat, 10);
    assert forall|i: int| 0 <= i < number.len() implies '0' <= #[trigger] number[i] <= '9' by {
        assert(number_char(number[i], 10));
    }
    assert(":"@ =~= seq![':']);
    assert(worth(number, 10) == port);
}

/// What a manifest says of the process of a handler.
pub struct ProcessSettings {
    /// The command that it runs.
    pub command: Seq<Seq<char>>,
    /// Its environment.
    pub environment: Map<Seq<char>, Seq<char>>,
    /// The directory that it runs in, where that is given.
    pub working_directory: Option<String>,
    /// The variable that holds its port.
    pub port_environment: Seq<char>,
    /// The host that it takes requests on.
    pub host: Seq<char>,
    /// How long it may take to become ready.
    pub timeout_seconds: u64,
}

/// What a handler says of its process.
pub open spec fn process_settings(serve: Serve) -> Option<ProcessSettings> {
    match serve {
        Serve::Http {
            command,
            environment,
            working_directory,
            port_environment,
            upstream_host,
            startup_timeout_seconds,
            ..
        } => Some(
            ProcessSettings {
                command: string_views(command@),
                environment: environment@,
                working_directory,
                port_environment: port_environment@,
                host: upstream_host@,
                timeout_seconds: startup_timeout_seconds,
            },
        ),
        Serve::Fastcgi {
            command,
            environment,
            working_directory,
            port_environment,
            upstream_host,
            startup_timeout_seconds,
            ..
        } => Some(
            ProcessSettings {
                command: string_views(command@),
                environment: environment@,
                working_directory,
                port_environment: port_environment@,
                host: upstream_host@,
                timeout_seconds: startup_timeout_seconds,
            },
        ),
        _ => None,
    }
}

/// A process is told its port, in decimal, in the variable that the manifest
/// names, and takes requests on it. Every other variable that the manifest
/// gives is expanded, and no other is set.
pub proof fn law_process_is_told_its_port(
    site: ResolvedSite,
    port: u16,
    namespace: Option<String>,
    plan: Result<LaunchPlan, SiteError>,
)
    requires
        plans(site, port, namespace, plan),
        process_settings(site.manifest.serve) is Some,
    ensures
        plan matches Ok(made) && {
            let settings = process_settings(site.manifest.serve)->Some_0;
            let environment = made.invocation.environment@;
            &&& made.upstream.port == port
            &&& environment.dom() == settings.environment.dom().insert(settings.port_environment)
            &&& number_value(environment[settings.port_environment], 10, 65535) == Ok::<
                nat,
                NumberError,
            >(port as nat)
            &&& environment[settings.port_environment] == decimal_text(port as nat)
            &&& forall|name: Seq<char>| #[trigger]
                settings.environment.dom().contains(name) && name != settings.port_environment
                    ==> environment[name] == expansion(site, port).expands(
                    settings.environment[name],
                )
        },
{
    let settings = process_settings(site.manifest.serve)->Some_0;
    lemma_digits_read_back(port as nat, 10, 65535);
    law_expanded_one_by_one(expansion(site, port), settings.command, settings.environment);
    assert(plan is Ok);
    assert(plan->Ok_0.invocation.environment@.dom() =~= settings.environment.dom().insert(
        settings.port_environment,
    ));
}

/// The variables stand for the port, the host name that was asked for and the
/// directory of the site.
pub proof fn law_variables_of_site(site: ResolvedSite, port: u16)
    ensures
        expansion(site, port).port == port,
        expansion(site, port).domain == site.domain@,
        expansion(site, port).site_root == site.directory@,
{
}

/// A process runs its command, each word of it expanded, in the directory of the
/// site or in the one that the manifest names from there. In a namespace it is
/// `ip netns exec` that runs the command.
pub proof fn law_process_runs_its_command(
    site: ResolvedSite,
    port: u16,
    namespace: Option<String>,
    plan: Result<LaunchPlan, SiteError>,
)
    requires
        plans(site, port, namespace, plan),
        process_settings(site.manifest.serve) is Some,
        process_settings(site.manifest.serve)->Some_0.command.len() > 0,
    ensures
        plan matches Ok(made) && {
            let settings = process_settings(site.manifest.serve)->Some_0;
            let variables = expansion(site, port);
            let run = made.invocation;
            &&& made.program@ == settings.command[0]
            &&& made.timeout_seconds == settings.timeout_seconds
            &&& namespace is None ==> {
                &&& run.program@ == variables.expands(settings.command[0])
                &&& run.arguments@.len() == settings.command.len() - 1
                &&& forall|i: int|
                    0 <= i < run.arguments@.len() ==> (#[trigger] run.arguments@[i])@
                        == variables.expands(settings.command[i + 1])
            }
            &&& namespace matches Some(name) ==> {
                &&& run.program@ == "ip"@
                &&& run.arguments@.len() == settings.command.len() + 3
                &&& run.arguments@[0]@ == "netns"@
                &&& run.arguments@[1]@ == "exec"@
                &&& run.arguments@[2]@ == name@
                &&& forall|i: int|
                    3 <= i < run.arguments@.len() ==> (#[trigger] run.arguments@[i])@
                        == variables.expands(settings.command[i - 3])
            }
            &&& settings.working_directory is None ==> run.directory@ == site.directory@
            &&& settings.working_directory matches Some(inner) ==> run.directory@ == joined(
                site.directory@,
                encode_utf8(inner@),
            )
        },
{
    let settings = process_settings(site.manifest.serve)->Some_0;
    let variables = expansion(site, port);
    law_expanded_one_by_one(variables, settings.command, settings.environment);
    assert(plan is Ok);
    let run = plan->Ok_0.invocation;
    let all = in_namespace(variables.expands_all(settings.command), namespace);
    assert(string_views(run.arguments@) == all.skip(1));
    assert(string_views(run.arguments@).len() == run.arguments@.len());
    assert forall|i: int| 0 <= i < run.arguments@.len() implies (#[trigger] run.arguments@[i])@
        == all[i + 1] by {
        assert(string_views(run.arguments@)[i] == run.arguments@[i]@);
    }
    if let Some(name) = namespace {
        assert forall|i: int| 4 <= i < all.len() implies #[trigger] all[i]
            == variables.expands_all(settings.command)[i - 4] by {}
        assert(run.arguments@[0]@ == all[1]);
        assert(run.arguments@[1]@ == all[2]);
        assert(run.arguments@[2]@ == all[3]);
    }
}

/// A process in a namespace takes requests on the second address of that
/// namespace, and any other on the host that the manifest gives, expanded. It is
/// probed there, as the manifest says: by a request for a path, or by a
/// connection.
pub proof fn law_process_is_probed(
    site: ResolvedSite,
    port: u16,
    namespace: Option<String>,
    plan: Result<LaunchPlan, SiteError>,
)
    requires
        plans(site, port, namespace, plan),
        process_settings(site.manifest.serve) is Some,
    ensures
        plan matches Ok(made) && {
            let settings = process_settings(site.manifest.serve)->Some_0;
            &&& namespace is None ==> made.upstream.host@ == expansion(site, port).expands(
                settings.host,
            )
            &&& namespace matches Some(name) ==> made.upstream.host@ == address(
                id_of(name@) as u32,
                2,
            )
            &&& site.manifest.serve is Fastcgi ==> made.probe is Connect
            &&& site.manifest.serve matches Serve::Http { readiness, .. } ==> match readiness {
                Readiness::Tcp => made.probe is Connect,
                Readiness::Http { path, status } => {
                    &&& made.probe matches ReadinessProbe::Request { url: asked, status: expected }
                    &&& asked@ == url(made.upstream.host@, port, path@)
                    &&& expected == status
                },
            }
        },
{
}

/// A connection shows that a process is ready where that is what is waited for,
/// and an answer where its status is the one that is waited for. Until a probe
/// shows it the process is probed again after 50 milliseconds; once one does it
/// is taken for started where the plan says.
pub proof fn law_probed_until_ready(
    plan: LaunchPlan,
    namespace: Option<String>,
    grace_seconds: u64,
    outcome: ProbeOutcome,
    step: LaunchStep,
)
    requires
        next_launch(plan, namespace, grace_seconds, LaunchSeen::Probed(outcome), step),
    ensures
        step is Done || step == (LaunchStep::Wait { milliseconds: 50 }),
        step matches LaunchStep::Done(upstream) ==> upstream == plan.upstream,
        plan.probe is Connect ==> (step is Done <==> outcome is Connected),
        plan.probe matches ReadinessProbe::Request { status, .. } ==> (step is Done <==> (
        outcome matches ProbeOutcome::Answered(got) && got == status)),
{
}

/// A start that fails says which program did not start, or which place did not
/// answer in which time. The process group of one that is not ready gets the
/// grace to end, and a namespace is removed by its name.
pub proof fn law_failed_start(
    plan: LaunchPlan,
    namespace: Option<String>,
    grace_seconds: u64,
    seen: LaunchSeen,
    step: LaunchStep,
)
    requires
        next_launch(plan, namespace, grace_seconds, seen, step),
    ensures
        seen is Spawned ==> step is Probe,
        seen is NotSpawned ==> (step matches LaunchStep::Abandon { error, .. } && error == (
        SiteError::NotStarted { program: plan.program })),
        seen is TimedOut ==> (step matches LaunchStep::Abandon { terminate, error, .. } && terminate
            == Some(grace_seconds) && error == (SiteError::NotReady {
            host: plan.upstream.host,
            port: plan.upstream.port,
            seconds: plan.timeout_seconds,
        })),
        step matches LaunchStep::Abandon { release, .. } ==> {
            &&& namespace is None ==> release is None
            &&& namespace matches Some(name) ==> (release matches Some(command)
                && command@.len() == 3 && command@[0]@ == "netns"@ && command@[1]@ == "del"@
                && command@[2]@ == name@)
        },
{
    if let LaunchStep::Abandon { release, .. } = step {
        if let Some(command) = release {
            let views = string_views(command@);
            assert(views.len() == command@.len());
            assert(views[0] == command@[0]@ && views[1] == command@[1]@ && views[2]
                == command@[2]@);
        }
    }
}

/// The variables of a manifest stand for the port, the host name and the
/// directory that they are made of.
pub proof fn law_what_variables_stand_for<'a>(variables: RuntimeVariables<'a>)
    ensures
        variables@.port == variables.port,
        variables@.domain == variables.domain@,
        variables@.site_root == variables.site_root@,
{
}

} // verus!
