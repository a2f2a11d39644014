//! The manifest of a site: how it is served, prepared and limited.

use vstd::prelude::*;

use crate::environment::Environment;
use crate::number::{decimal, decimal_text};
use crate::path::{lossy_text, FilePath};
use crate::text::{begins_with, chars_of, copy_strings, ends_with, string_views};

verus! {

/// What a `site.json` says.
#[derive(Debug)]
pub struct Manifest {
    /// The version of the format.
    pub version: u32,
    /// Where the files of the site lie, seen from the manifest's directory.
    pub site_root: String,
    /// Which host names the site answers to.
    pub domains: Domains,
    /// How a request is answered where no route says otherwise.
    pub serve: Serve,
    /// Handlers for some of the paths. The first that matches counts.
    pub routes: Vec<Route>,
    /// Commands that run once before the site starts.
    pub prepare: Vec<Vec<String>>,
    /// When a process of the site is stopped.
    pub lifecycle: Lifecycle,
    /// What a request may use.
    pub limits: Limits,
}

/// Which host names a site answers to besides the one of its directory.
#[derive(Debug)]
pub struct Domains {
    /// Whether the site answers for the host names below its own.
    pub subdomains: bool,
    /// Further host names.
    pub aliases: Vec<String>,
}

/// How a request is answered.
#[derive(Debug)]
pub enum Serve {
    /// From the files below a directory.
    Static {
        /// The directory, seen from the site's directory.
        root: String,
        /// The files that stand for a directory, best first.
        index: Vec<String>,
    },
    /// By a process that speaks HTTP.
    Http {
        /// The program and its arguments.
        command: Vec<String>,
        /// Further environment variables of the process.
        environment: Environment,
        /// Where the process runs, seen from the site's directory.
        working_directory: Option<String>,
        /// The environment variable that holds the port.
        port_environment: String,
        /// The port, where it is fixed.
        port: Option<u16>,
        /// The host on which the process listens.
        upstream_host: String,
        /// How long the process may take to become ready.
        startup_timeout_seconds: u64,
        /// How the process shows that it is ready.
        readiness: Readiness,
        /// The network in which the process runs.
        network: Network,
    },
    /// By a process for every request, over standard input and output.
    Stdio {
        /// The program and its arguments.
        command: Vec<String>,
        /// Further environment variables of the process.
        environment: Environment,
        /// Where the process runs, seen from the site's directory.
        working_directory: Option<String>,
        /// How long the process may take.
        timeout_seconds: u64,
    },
    /// By a process that speaks FastCGI.
    Fastcgi {
        /// The program and its arguments.
        command: Vec<String>,
        /// Further environment variables of the process.
        environment: Environment,
        /// Where the process runs, seen from the site's directory.
        working_directory: Option<String>,
        /// The environment variable that holds the port.
        port_environment: String,
        /// The host on which the process listens.
        upstream_host: String,
        /// How long the process may take to become ready.
        startup_timeout_seconds: u64,
        /// The directory of the scripts, seen from the site's directory.
        document_root: String,
        /// The script for every path that names none.
        front_controller: String,
    },
}

/// How a process shows that it is ready.
#[derive(Debug)]
pub enum Readiness {
    /// It takes connections.
    Tcp,
    /// It answers a request with a given status.
    Http {
        /// The path of the request.
        path: String,
        /// The status of the answer.
        status: u16,
    },
}

/// The network in which a process runs.
#[derive(Debug, PartialEq, Eq, Structural, Clone, Copy)]
pub enum Network {
    /// That of the host.
    Host,
    /// One of its own.
    Namespace,
}

/// A handler for some of the paths.
#[derive(Debug)]
pub struct Route {
    /// The beginning of the paths.
    pub path_prefix: Option<String>,
    /// The extensions of the paths, without the dot.
    pub extensions: Vec<String>,
    /// How a request for such a path is answered.
    pub serve: Serve,
}

/// When a process is stopped.
#[derive(Debug)]
pub struct Lifecycle {
    /// How long a process runs without a request.
    pub idle_timeout_seconds: u64,
    /// How long a process may take to stop.
    pub shutdown_grace_seconds: u64,
    /// The beginnings of the paths whose requests keep a process running.
    pub activity_paths: Vec<String>,
}

/// What a request may use.
#[derive(Debug)]
pub struct Limits {
    /// The largest request body.
    pub request_body_bytes: usize,
    /// The largest output of a program.
    pub stdio_output_bytes: usize,
    /// The largest number of requests at the same time.
    pub max_concurrent_requests: usize,
}

// ---------------------------------------------------------------------------
// Defaults

/// How long a process may take to become ready, where the manifest does not say.
pub const STARTUP_TIMEOUT_SECONDS: u64 = 15;

/// How long a process runs without a request, where the manifest does not say.
pub const IDLE_TIMEOUT_SECONDS: u64 = 60;

/// How long a program may take for a request, where the manifest does not say.
pub const REQUEST_TIMEOUT_SECONDS: u64 = 30;

/// How long a process may take to stop, where the manifest does not say.
pub const SHUTDOWN_GRACE_SECONDS: u64 = 10;

/// The status of a process that is ready, where the manifest does not say.
pub const READINESS_STATUS: u16 = 200;

/// The largest request body, where the manifest does not say.
pub const REQUEST_BODY_BYTES: usize = 67108864;

/// The largest output of a program, where the manifest does not say.
pub const STDIO_OUTPUT_BYTES: usize = 16777216;

/// The largest number of requests at the same time, where the manifest does not say.
pub const MAX_CONCURRENT_REQUESTS: usize = 64;

/// The version of the format.
pub fn manifest_version() -> (version: u32)
    ensures
        version == 1,
{
    1
}

/// The directory of static files.
pub fn default_public() -> (root: String)
    ensures
        root@ == "public"@,
{
    "public".to_string()
}

/// The files that stand for a directory.
pub fn default_indexes() -> (indexes: Vec<String>)
    ensures
        indexes@.len() == 1,
        indexes@[0]@ == "index.html"@,
{
    let mut indexes: Vec<String> = Vec::new();
    indexes.push("index.html".to_string());
    indexes
}

/// The environment variable that holds the port.
pub fn default_port_environment() -> (name: String)
    ensures
        name@ == "PORT"@,
{
    "PORT".to_string()
}

/// How long a process may take to become ready, in seconds.
pub fn default_startup_timeout() -> (seconds: u64)
    ensures
        seconds == 15,
        seconds == STARTUP_TIMEOUT_SECONDS,
{
    STARTUP_TIMEOUT_SECONDS
}

/// How long a process runs without a request, in seconds.
pub fn default_idle_timeout() -> (seconds: u64)
    ensures
        seconds == 60,
        seconds == IDLE_TIMEOUT_SECONDS,
{
    IDLE_TIMEOUT_SECONDS
}

/// How long a program may take for a request, in seconds.
pub fn default_request_timeout() -> (seconds: u64)
    ensures
        seconds == 30,
        seconds == REQUEST_TIMEOUT_SECONDS,
{
    REQUEST_TIMEOUT_SECONDS
}

/// How long a process may take to stop, in seconds.
pub fn default_shutdown_grace() -> (seconds: u64)
    ensures
        seconds == 10,
        seconds == SHUTDOWN_GRACE_SECONDS,
{
    SHUTDOWN_GRACE_SECONDS
}

/// The files of a site lie beside its manifest.
pub fn default_site_root() -> (root: String)
    ensures
        root@ == "."@,
{
    ".".to_string()
}

/// The host on which a process listens.
pub fn default_upstream_host() -> (host: String)
    ensures
        host@ == "127.0.0.1"@,
{
    "127.0.0.1".to_string()
}

/// The script for every path that names none.
pub fn default_front_controller() -> (script: String)
    ensures
        script@ == "index.php"@,
{
    "index.php".to_string()
}

/// The status of a process that is ready.
pub fn default_readiness_status() -> (status: u16)
    ensures
        status == 200,
        status == READINESS_STATUS,
{
    READINESS_STATUS
}

/// Every path keeps a process running.
pub fn default_activity_paths() -> (paths: Vec<String>)
    ensures
        paths@.len() == 1,
        paths@[0]@ == "/"@,
{
    let mut paths: Vec<String> = Vec::new();
    paths.push("/".to_string());
    paths
}

/// The largest request body.
pub fn default_request_body_bytes() -> (bytes: usize)
    ensures
        bytes == 67108864,
        bytes == REQUEST_BODY_BYTES,
{
    REQUEST_BODY_BYTES
}

/// The largest output of a program.
pub fn default_stdio_output_bytes() -> (bytes: usize)
    ensures
        bytes == 16777216,
        bytes == STDIO_OUTPUT_BYTES,
{
    STDIO_OUTPUT_BYTES
}

/// The largest number of requests at the same time.
pub fn default_max_concurrent_requests() -> (requests: usize)
    ensures
        requests == 64,
        requests == MAX_CONCURRENT_REQUESTS,
{
    MAX_CONCURRENT_REQUESTS
}

impl Default for Domains {
    fn default() -> (domains: Self)
        ensures
            !domains.subdomains,
            domains.aliases@.len() == 0,
    {
        Domains { subdomains: false, aliases: Vec::new() }
    }
}

impl Default for Readiness {
    fn default() -> (readiness: Self)
        ensures
            readiness is Tcp,
    {
        Readiness::Tcp
    }
}

impl Default for Network {
    fn default() -> (network: Self)
        ensures
            network is Host,
    {
        Network::Host
    }
}

impl Default for Lifecycle {
    fn default() -> (lifecycle: Self)
        ensures
            lifecycle.idle_timeout_seconds == 60,
            lifecycle.shutdown_grace_seconds == 10,
            lifecycle.activity_paths@.len() == 1,
            lifecycle.activity_paths@[0]@ == "/"@,
    {
        Lifecycle {
            idle_timeout_seconds: default_idle_timeout(),
            shutdown_grace_seconds: default_shutdown_grace(),
            activity_paths: default_activity_paths(),
        }
    }
}

impl Default for Limits {
    fn default() -> (limits: Self)
        ensures
            limits.request_body_bytes == 67108864,
            limits.stdio_output_bytes == 16777216,
            limits.max_concurrent_requests == 64,
    {
        Limits {
            request_body_bytes: default_request_body_bytes(),
            stdio_output_bytes: default_stdio_output_bytes(),
            max_concurrent_requests: default_max_concurrent_requests(),
        }
    }
}

// ---------------------------------------------------------------------------
// Loading

/// What came of reading and parsing the file of a manifest.
#[derive(Debug)]
pub enum ManifestSource {
    /// The file could not be read.
    Unreadable,
    /// The file does not hold a manifest.
    Malformed,
    /// The file holds this manifest.
    Parsed(Manifest),
}

/// Why a manifest is refused.
#[derive(Debug)]
pub enum ManifestError {
    /// The file at this path could not be read.
    Unreadable(String),
    /// The file at this path does not hold a manifest.
    Malformed(String),
    /// The format has another version.
    UnsupportedVersion(u32),
    /// A handler has no program to run.
    EmptyCommand,
    /// A step of the preparation has no program to run.
    EmptyPrepare,
}

impl ManifestError {
    /// What the error says.
    pub open spec fn text(self) -> Seq<char> {
        match self {
            ManifestError::Unreadable(path) => "failed to read "@ + path@,
            ManifestError::Malformed(path) => "invalid manifest "@ + path@,
            ManifestError::UnsupportedVersion(version) => "unsupported manifest version "@
                + decimal_text(version as nat),
            ManifestError::EmptyCommand => "serve.command cannot be empty"@,
            ManifestError::EmptyPrepare => "prepare commands cannot be empty"@,
        }
    }

    /// What the error says.
    pub fn message(&self) -> (text: String)
        ensures
            text@ == self.text(),
    {
        match self {
            ManifestError::Unreadable(path) => "failed to read ".to_string().concat(path.as_str()),
            ManifestError::Malformed(path) => "invalid manifest ".to_string().concat(path.as_str()),
            ManifestError::UnsupportedVersion(version) => {
                let number = decimal(*version as u64);
                "unsupported manifest version ".to_string().concat(number.as_str())
            },
            ManifestError::EmptyCommand => "serve.command cannot be empty".to_string(),
            ManifestError::EmptyPrepare => "prepare commands cannot be empty".to_string(),
        }
    }
}

fn copy_text(text: &Option<String>) -> (copy: Option<String>)
    ensures
        copy == *text,
{
    match text {
        Some(inner) => Some(inner.clone()),
        None => None,
    }
}

impl Readiness {
    /// The same once more.
    pub fn copy(&self) -> (readiness: Readiness)
        ensures
            readiness == *self,
    {
        match self {
            Readiness::Tcp => Readiness::Tcp,
            Readiness::Http { path, status } => Readiness::Http {
                path: path.clone(),
                status: *status,
            },
        }
    }
}

impl Serve {
    /// The program that a handler runs, with its arguments.
    pub open spec fn command(self) -> Option<Seq<String>> {
        match self {
            Serve::Static { .. } => None,
            Serve::Http { command, .. } => Some(command@),
            Serve::Stdio { command, .. } => Some(command@),
            Serve::Fastcgi { command, .. } => Some(command@),
        }
    }

    /// Whether a handler that runs a program names one.
    pub open spec fn runnable(self) -> bool {
        self.command() matches Some(command) ==> command.len() > 0
    }

    /// Whether two handlers say the same.
    pub open spec fn same_as(self, other: Serve) -> bool {
        match (self, other) {
            (Serve::Static { root: a, index: b }, Serve::Static { root: x, index: y }) => a == x
                && string_views(b@) == string_views(y@),
            (
                Serve::Http {
                    command: a,
                    environment: b,
                    working_directory: c,
                    port_environment: d,
                    port: e,
                    upstream_host: f,
                    startup_timeout_seconds: g,
                    readiness: h,
                    network: i,
                },
                Serve::Http {
                    command: p,
                    environment: q,
                    working_directory: r,
                    port_environment: s,
                    port: t,
                    upstream_host: u,
                    startup_timeout_seconds: v,
                    readiness: w,
                    network: x,
                },
            ) => string_views(a@) == string_views(p@) && b@ == q@ && c == r && d == s && e == t && f
                == u && g == v && h == w && i == x,
            (
                Serve::Stdio { command: a, environment: b, working_directory: c, timeout_seconds: d },
                Serve::Stdio { command: p, environment: q, working_directory: r, timeout_seconds: s },
            ) => string_views(a@) == string_views(p@) && b@ == q@ && c == r && d == s,
            (
                Serve::Fastcgi {
                    command: a,
                    environment: b,
                    working_directory: c,
                    port_environment: d,
                    upstream_host: e,
                    startup_timeout_seconds: f,
                    document_root: g,
                    front_controller: h,
                },
                Serve::Fastcgi {
                    command: p,
                    environment: q,
                    working_directory: r,
                    port_environment: s,
                    upstream_host: t,
                    startup_timeout_seconds: u,
                    document_root: v,
                    front_controller: w,
                },
            ) => string_views(a@) == string_views(p@) && b@ == q@ && c == r && d == s && e == t && f
                == u && g == v && h == w,
            _ => false,
        }
    }

    /// The same handler once more.
    pub fn copy(&self) -> (serve: Serve)
        ensures
            serve.same_as(*self),
    {
        match self {
            Serve::Static { root, index } => Serve::Static {
                root: root.clone(),
                index: copy_strings(index),
            },
            Serve::Http {
                command,
                environment,
                working_directory,
                port_environment,
                port,
                upstream_host,
                startup_timeout_seconds,
                readiness,
                network,
            } => Serve::Http {
                command: copy_strings(command),
                environment: environment.copy(),
                working_directory: copy_text(working_directory),
                port_environment: port_environment.clone(),
                port: *port,
                upstream_host: upstream_host.clone(),
                startup_timeout_seconds: *startup_timeout_seconds,
                readiness: readiness.copy(),
                network: *network,
            },
            Serve::Stdio { command, environment, working_directory, timeout_seconds } => {
                Serve::Stdio {
                    command: copy_strings(command),
                    environment: environment.copy(),
                    working_directory: copy_text(working_directory),
                    timeout_seconds: *timeout_seconds,
                }
            },
            Serve::Fastcgi {
                command,
                environment,
                working_directory,
                port_environment,
                upstream_host,
                startup_timeout_seconds,
                document_root,
                front_controller,
            } => Serve::Fastcgi {
                command: copy_strings(command),
                environment: environment.copy(),
                working_directory: copy_text(working_directory),
                port_environment: port_environment.clone(),
                upstream_host: upstream_host.clone(),
                startup_timeout_seconds: *startup_timeout_seconds,
                document_root: document_root.clone(),
                front_controller: front_controller.clone(),
            },
        }
    }

    /// Whether a handler that runs a program names one.
    pub fn is_runnable(&self) -> (yes: bool)
        ensures
            yes == self.runnable(),
    {
        match self {
            Serve::Static { .. } => true,
            Serve::Http { command, .. } => command.len() > 0,
            Serve::Stdio { command, .. } => command.len() > 0,
            Serve::Fastcgi { command, .. } => command.len() > 0,
        }
    }
}

impl Manifest {
    /// Whether every handler that runs a program names one.
    pub open spec fn runnable(self) -> bool {
        &&& self.serve.runnable()
        &&& forall|i: int| 0 <= i < self.routes@.len() ==> (#[trigger] self.routes@[i]).serve.runnable()
    }

    /// Whether every step of the preparation names a program.
    pub open spec fn preparable(self) -> bool {
        forall|i: int| 0 <= i < self.prepare@.len() ==> (#[trigger] self.prepare@[i])@.len() > 0
    }

    /// Whether the library can serve the manifest.
    pub open spec fn acceptable(self) -> bool {
        self.version == 1 && self.runnable() && self.preparable()
    }

    fn all_runnable(&self) -> (yes: bool)
        ensures
            yes == self.runnable(),
    {
        if !self.serve.is_runnable() {
            return false;
        }
        let mut i: usize = 0;
        while i < self.routes.len()
            invariant
                i <= self.routes@.len(),
                forall|k: int| 0 <= k < i ==> (#[trigger] self.routes@[k]).serve.runnable(),
            decreases self.routes@.len() - i,
        {
            if !self.routes[i].serve.is_runnable() {
                return false;
            }
            i = i + 1;
        }
        true
    }

    fn all_preparable(&self) -> (yes: bool)
        ensures
            yes == self.preparable(),
    {
        let mut i: usize = 0;
        while i < self.prepare.len()
            invariant
                i <= self.prepare@.len(),
                forall|k: int| 0 <= k < i ==> (#[trigger] self.prepare@[k])@.len() > 0,
            decreases self.prepare@.len() - i,
        {
            if self.prepare[i].len() == 0 {
                return false;
            }
            i = i + 1;
        }
        true
    }

    /// Takes the manifest that was read from the file at `path`, unless the
    /// library cannot serve it.
    pub fn load(path: &FilePath, source: ManifestSource) -> (loaded: Result<Manifest, ManifestError>)
        ensures
            match source {
                ManifestSource::Unreadable => loaded matches Err(ManifestError::Unreadable(shown))
                    && shown@ == lossy_text(path@),
                ManifestSource::Malformed => loaded matches Err(ManifestError::Malformed(shown))
                    && shown@ == lossy_text(path@),
                ManifestSource::Parsed(manifest) => if manifest.version != 1 {
                    loaded == Err::<Manifest, _>(
                        ManifestError::UnsupportedVersion(manifest.version),
                    )
                } else if !manifest.runnable() {
                    loaded == Err::<Manifest, _>(ManifestError::EmptyCommand)
                } else if !manifest.preparable() {
                    loaded == Err::<Manifest, _>(ManifestError::EmptyPrepare)
                } else {
                    loaded == Ok::<_, ManifestError>(manifest)
                },
            },
            loaded matches Ok(manifest) ==> manifest.acceptable(),
            loaded matches Ok(manifest) ==> source == ManifestSource::Parsed(manifest),
            source matches ManifestSource::Parsed(manifest) ==> (loaded is Ok
                <==> manifest.acceptable()),
    {
        match source {
            ManifestSource::Unreadable => Err(ManifestError::Unreadable(path.to_text())),
            ManifestSource::Malformed => Err(ManifestError::Malformed(path.to_text())),
            ManifestSource::Parsed(manifest) => {
                if manifest.version != 1 {
                    return Err(ManifestError::UnsupportedVersion(manifest.version));
                }
                if !manifest.all_runnable() {
                    return Err(ManifestError::EmptyCommand);
                }
                if !manifest.all_preparable() {
                    return Err(ManifestError::EmptyPrepare);
                }
                Ok(manifest)
            },
        }
    }
}

// ---------------------------------------------------------------------------
// Routes

/// Whether a path ends in a dot and this extension.
pub open spec fn has_extension(path: Seq<char>, extension: Seq<char>) -> bool {
    (seq!['.'] + extension).is_suffix_of(path)
}

impl Route {
    /// Whether the route is for `path`: by its beginning or by its extension.
    pub open spec fn is_for(self, path: Seq<char>) -> bool {
        ||| self.path_prefix matches Some(prefix) && prefix@.is_prefix_of(path)
        ||| exists|i: int|
            0 <= i < self.extensions@.len() && has_extension(path, (#[trigger] self.extensions@[i])@)
    }

    /// Whether the route is for `path`.
    pub fn matches(&self, path: &str) -> (yes: bool)
        ensures
            yes == self.is_for(path@),
    {
        let chars = chars_of(path);
        if let Some(prefix) = &self.path_prefix {
            let front = chars_of(prefix.as_str());
            if begins_with(chars.as_slice(), front.as_slice()) {
                return true;
            }
        }
        let mut i: usize = 0;
        while i < self.extensions.len()
            invariant
                i <= self.extensions@.len(),
                chars@ == path@,
                !(self.path_prefix matches Some(prefix) && prefix@.is_prefix_of(path@)),
                forall|k: int|
                    0 <= k < i ==> !has_extension(path@, (#[trigger] self.extensions@[k])@),
            decreases self.extensions@.len() - i,
        {
            let dotted = ".".to_string().concat(self.extensions[i].as_str());
            let suffix = chars_of(dotted.as_str());
            proof {
                reveal_strlit(".");
                assert("."@ =~= seq!['.']);
            }
            if ends_with(chars.as_slice(), suffix.as_slice()) {
                assert(has_extension(path@, self.extensions@[i as int]@));
                return true;
            }
            i = i + 1;
        }
        false
    }
}

/// The first route for `path`.
pub open spec fn first_route(routes: Seq<Route>, path: Seq<char>) -> Option<int>
    decreases routes.len(),
{
    if routes.len() == 0 {
        None
    } else if routes[0].is_for(path) {
        Some(0)
    } else {
        match first_route(routes.drop_first(), path) {
            Some(i) => Some(i + 1),
            None => None,
        }
    }
}

/// What `first_route` finds.
pub proof fn lemma_first_route(routes: Seq<Route>, path: Seq<char>)
    ensures
        match first_route(routes, path) {
            Some(i) => 0 <= i < routes.len() && routes[i].is_for(path) && forall|k: int|
                0 <= k < i ==> !(#[trigger] routes[k]).is_for(path),
            None => forall|k: int| 0 <= k < routes.len() ==> !(#[trigger] routes[k]).is_for(path),
        },
    decreases routes.len(),
{
    if routes.len() > 0 && !routes[0].is_for(path) {
        let rest = routes.drop_first();
        lemma_first_route(rest, path);
        match first_route(rest, path) {
            Some(i) => {
                assert forall|k: int| 0 <= k < i + 1 implies !(#[trigger] routes[k]).is_for(path) by {
                    if k > 0 {
                        assert(rest[k - 1] == routes[k]);
                    }
                }
            },
            None => {
                assert forall|k: int| 0 <= k < routes.len() implies !(#[trigger] routes[k]).is_for(
                    path,
                ) by {
                    if k > 0 {
                        assert(rest[k - 1] == routes[k]);
                    }
                }
            },
        }
    }
}

/// The first route for `path`.
pub fn find_route(routes: &Vec<Route>, path: &str) -> (found: Option<usize>)
    ensures
        match found {
            Some(i) => first_route(routes@, path@) == Some(i as int) && i < routes@.len(),
            None => first_route(routes@, path@) is None,
        },
{
    let mut i: usize = 0;
    proof {
        lemma_first_route(routes@, path@);
    }
    while i < routes.len()
        invariant
            i <= routes@.len(),
            forall|k: int| 0 <= k < i ==> !(#[trigger] routes@[k]).is_for(path@),
            match first_route(routes@, path@) {
                Some(j) => 0 <= j < routes@.len() && routes@[j].is_for(path@) && forall|k: int|
                    0 <= k < j ==> !(#[trigger] routes@[k]).is_for(path@),
                None => forall|k: int|
                    0 <= k < routes@.len() ==> !(#[trigger] routes@[k]).is_for(path@),
            },
        decreases routes@.len() - i,
    {
        if routes[i].matches(path) {
            return Some(i);
        }
        i = i + 1;
    }
    None
}

// ---------------------------------------------------------------------------
// Laws

/// A handler that runs a program must name one, whatever else it says; one that
/// serves files always can.
pub proof fn law_runnable(serve: Serve)
    ensures
        serve is Static ==> serve.runnable(),
        serve matches Serve::Http { command, .. } ==> (serve.runnable() <==> command@.len() >= 1),
        serve matches Serve::Stdio { command, .. } ==> (serve.runnable() <==> command@.len() >= 1),
        serve matches Serve::Fastcgi { command, .. } ==> (serve.runnable() <==> command@.len() >= 1),
{
}

/// A manifest is accepted if and only if it has version 1, its handler and those
/// of all its routes can be run, and every step of its preparation names a
/// program. Nothing else in it matters.
pub proof fn law_acceptable(manifest: Manifest)
    ensures
        manifest.runnable() <==> manifest.serve.runnable() && forall|i: int|
            0 <= i < manifest.routes@.len() ==> (#[trigger] manifest.routes@[i]).serve.runnable(),
        manifest.preparable() <==> forall|i: int|
            0 <= i < manifest.prepare@.len() ==> (#[trigger] manifest.prepare@[i])@.len() >= 1,
        manifest.acceptable() <==> {
            &&& manifest.version == 1
            &&& manifest.serve.runnable()
            &&& forall|i: int|
                0 <= i < manifest.routes@.len() ==> (
                #[trigger] manifest.routes@[i]).serve.runnable()
            &&& forall|i: int|
                0 <= i < manifest.prepare@.len() ==> (#[trigger] manifest.prepare@[i])@.len() >= 1
        },
{
}

/// A route is for every path that begins with its prefix.
pub proof fn law_prefix_matches(route: Route, rest: Seq<char>)
    requires
        route.path_prefix is Some,
    ensures
        route.is_for(route.path_prefix->Some_0@ + rest),
{
    let prefix = route.path_prefix->Some_0@;
    assert((prefix + rest).subrange(0, prefix.len() as int) =~= prefix);
}

/// A route is for every path that ends in a dot and one of its extensions.
pub proof fn law_extension_matches(route: Route, front: Seq<char>, index: int)
    requires
        0 <= index < route.extensions@.len(),
    ensures
        route.is_for(front.push('.') + route.extensions@[index]@),
{
    let extension = route.extensions@[index]@;
    let path = front.push('.') + extension;
    let suffix = seq!['.'] + extension;
    assert(path.subrange(path.len() - suffix.len(), path.len() as int) =~= suffix);
    assert(has_extension(path, route.extensions@[index]@));
}

/// A route is for no other path.
pub proof fn law_no_other_match(route: Route, path: Seq<char>)
    requires
        route.is_for(path),
    ensures
        (route.path_prefix matches Some(prefix) && exists|rest: Seq<char>|
            path == #[trigger] (prefix@ + rest)) || (exists|front: Seq<char>, i: int|
            0 <= i < route.extensions@.len() && path == #[trigger] (front.push('.')
                + route.extensions@[i]@)),
{
    if route.path_prefix is Some && route.path_prefix->Some_0@.is_prefix_of(path) {
        let prefix = route.path_prefix->Some_0@;
        let rest = path.skip(prefix.len() as int);
        assert(path =~= prefix + rest);
    } else {
        let i = choose|i: int|
            0 <= i < route.extensions@.len() && has_extension(
                path,
                (#[trigger] route.extensions@[i])@,
            );
        let extension = route.extensions@[i]@;
        let suffix = seq!['.'] + extension;
        let front = path.take(path.len() - suffix.len());
        assert(path =~= front + path.subrange(path.len() - suffix.len(), path.len() as int));
        assert(path =~= front.push('.') + extension);
    }
}

/// Two handlers that say the same agree in everything that they say.
pub proof fn law_same_handlers(a: Serve, b: Serve)
    requires
        a.same_as(b),
    ensures
        a matches Serve::Static { root, index } ==> (b matches Serve::Static {
            root: root_b,
            index: index_b,
        } && root@ == root_b@ && string_views(index@) == string_views(index_b@)),
        a is Http ==> b is Http && {
            &&& string_views(a->Http_command@) == string_views(b->Http_command@)
            &&& a->Http_environment@ == b->Http_environment@
            &&& a->Http_working_directory == b->Http_working_directory
            &&& a->Http_port_environment@ == b->Http_port_environment@
            &&& a->Http_port == b->Http_port
            &&& a->Http_upstream_host@ == b->Http_upstream_host@
            &&& a->Http_startup_timeout_seconds == b->Http_startup_timeout_seconds
            &&& a->Http_readiness == b->Http_readiness
            &&& a->Http_network == b->Http_network
        },
        a is Stdio ==> b is Stdio && {
            &&& string_views(a->Stdio_command@) == string_views(b->Stdio_command@)
            &&& a->Stdio_environment@ == b->Stdio_environment@
            &&& a->Stdio_working_directory == b->Stdio_working_directory
            &&& a->Stdio_timeout_seconds == b->Stdio_timeout_seconds
        },
        a is Fastcgi ==> b is Fastcgi && {
            &&& string_views(a->Fastcgi_command@) == string_views(b->Fastcgi_command@)
            &&& a->Fastcgi_environment@ == b->Fastcgi_environment@
            &&& a->Fastcgi_working_directory == b->Fastcgi_working_directory
            &&& a->Fastcgi_port_environment@ == b->Fastcgi_port_environment@
            &&& a->Fastcgi_upstream_host@ == b->Fastcgi_upstream_host@
            &&& a->Fastcgi_startup_timeout_seconds == b->Fastcgi_startup_timeout_seconds
            &&& a->Fastcgi_document_root@ == b->Fastcgi_document_root@
            &&& a->Fastcgi_front_controller@ == b->Fastcgi_front_controller@
        },
{
}

/// What an error says names the file or the version that it is about.
pub proof fn law_manifest_messages(path: String, version: u32)
    ensures
        ManifestError::Unreadable(path).text() == "failed to read "@ + path@,
        ManifestError::Malformed(path).text() == "invalid manifest "@ + path@,
        ManifestError::UnsupportedVersion(version).text() == "unsupported manifest version "@
            + decimal_text(version as nat),
        ManifestError::EmptyCommand.text() == "serve.command cannot be empty"@,
        ManifestError::EmptyPrepare.text() == "prepare commands cannot be empty"@,
{
}

/// What counts where the manifest does not say: bodies of 64 MiB and outputs of
/// 16 MiB, 64 requests at the same time, a quarter of a minute to become ready, a
/// minute without requests, half a minute for a program and ten seconds to stop.
pub proof fn law_defaults()
    ensures
        REQUEST_BODY_BYTES == 64 * 1024 * 1024,
        STDIO_OUTPUT_BYTES == 16 * 1024 * 1024,
        MAX_CONCURRENT_REQUESTS == 64,
        4 * STARTUP_TIMEOUT_SECONDS == 60,
        IDLE_TIMEOUT_SECONDS == 60,
        2 * REQUEST_TIMEOUT_SECONDS == 60,
        SHUTDOWN_GRACE_SECONDS == 10,
        READINESS_STATUS == 200,
{
}

} // verus!
