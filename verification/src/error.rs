//! Why a request fails.

use vstd::prelude::*;

use crate::cgi::CgiError;
use crate::number::{decimal, decimal_text};
use crate::reply::{response, Reply};
use crate::resolver::ResolveError;

verus! {

/// Why a request fails.
#[derive(Debug)]
pub enum SiteError {
    /// The site cannot be looked up.
    Resolve(ResolveError),
    /// The program of a step of the preparation did not start.
    PrepareNotRun {
        /// The program.
        program: String,
    },
    /// A step of the preparation failed.
    PrepareFailed {
        /// The program.
        program: String,
        /// How it ended.
        status: String,
    },
    /// A process is running for a site that has none.
    UnexpectedProcess,
    /// The handler has no process that outlives a request.
    NoProcess,
    /// The program of the site did not start.
    NotStarted {
        /// The program.
        program: String,
    },
    /// The process took too long to become ready.
    NotReady {
        /// The host on which it was expected.
        host: String,
        /// The port on which it was expected.
        port: u16,
        /// How long it was waited for.
        seconds: u64,
    },
    /// The network namespace could not be set up.
    NamespaceFailed {
        /// The namespace.
        namespace: String,
    },
    /// The handler does not run a program for every request.
    NotStdio,
    /// The program took too long.
    StdioTimedOut,
    /// The program failed.
    StdioExited {
        /// How it ended.
        status: String,
    },
    /// The program wrote too much.
    StdioOutput,
    /// The handler does not speak FastCGI.
    NotFastcgi,
    /// The answer is not a FastCGI record for the request.
    FastcgiRecord,
    /// The answer is too long.
    FastcgiOutput,
    /// The output of the program is not a reply.
    Cgi(CgiError),
    /// Reading, writing or connecting failed.
    Io(String),
}

/// How a time of whole seconds is shown: none at all in the smallest unit.
pub open spec fn duration_text(seconds: u64) -> Seq<char> {
    if seconds == 0 {
        "0ns"@
    } else {
        decimal_text(seconds as nat) + "s"@
    }
}

/// How a time of whole seconds is shown.
fn shown_duration(seconds: u64) -> (text: String)
    ensures
        text@ == duration_text(seconds),
{
    if seconds == 0 {
        "0ns".to_string()
    } else {
        decimal(seconds).concat("s")
    }
}

impl SiteError {
    /// What the error says.
    pub open spec fn text(self) -> Seq<char> {
        match self {
            SiteError::Resolve(error) => error.text(),
            SiteError::PrepareNotRun { program } => "failed to run prepare command "@ + program@,
            SiteError::PrepareFailed { program, status } => "prepare command "@ + program@
                + " exited with "@ + status@,
            SiteError::UnexpectedProcess => "invalid running state for stdio site"@,
            SiteError::NoProcess => "serve mode does not start a persistent process"@,
            SiteError::NotStarted { program } => "failed to start "@ + program@,
            SiteError::NotReady { host, port, seconds } => "site did not become ready on "@ + host@
                + ":"@ + decimal_text(port as nat) + " within "@ + duration_text(seconds),
            SiteError::NamespaceFailed { namespace } => "failed to configure network namespace "@
                + namespace@,
            SiteError::NotStdio => "not a stdio service"@,
            SiteError::StdioTimedOut => "stdio site timed out"@,
            SiteError::StdioExited { status } => "stdio site exited with "@ + status@,
            SiteError::StdioOutput => "stdio site exceeded its output limit"@,
            SiteError::NotFastcgi => "not a FastCGI service"@,
            SiteError::FastcgiRecord => "invalid FastCGI response"@,
            SiteError::FastcgiOutput => "FastCGI response exceeded its output limit"@,
            SiteError::Cgi(error) => error.text(),
            SiteError::Io(message) => message@,
        }
    }

    /// What the error says.
    pub fn message(&self) -> (text: String)
        ensures
            text@ == self.text(),
    {
        match self {
            SiteError::Resolve(error) => error.message(),
            SiteError::PrepareNotRun { program } => "failed to run prepare command ".to_string().concat(
                program.as_str(),
            ),
            SiteError::PrepareFailed { program, status } => {
                "prepare command ".to_string().concat(program.as_str()).concat(
                    " exited with ",
                ).concat(status.as_str())
            },
            SiteError::UnexpectedProcess => "invalid running state for stdio site".to_string(),
            SiteError::NoProcess => "serve mode does not start a persistent process".to_string(),
            SiteError::NotStarted { program } => "failed to start ".to_string().concat(
                program.as_str(),
            ),
            SiteError::NotReady { host, port, seconds } => {
                let port_text = decimal(*port as u64);
                let seconds_text = shown_duration(*seconds);
                "site did not become ready on ".to_string().concat(host.as_str()).concat(
                    ":",
                ).concat(port_text.as_str()).concat(" within ").concat(
                    seconds_text.as_str(),
                )
            },
            SiteError::NamespaceFailed { namespace } => {
                "failed to configure network namespace ".to_string().concat(namespace.as_str())
            },
            SiteError::NotStdio => "not a stdio service".to_string(),
            SiteError::StdioTimedOut => "stdio site timed out".to_string(),
            SiteError::StdioExited { status } => "stdio site exited with ".to_string().concat(
                status.as_str(),
            ),
            SiteError::StdioOutput => "stdio site exceeded its output limit".to_string(),
            SiteError::NotFastcgi => "not a FastCGI service".to_string(),
            SiteError::FastcgiRecord => "invalid FastCGI response".to_string(),
            SiteError::FastcgiOutput => "FastCGI response exceeded its output limit".to_string(),
            SiteError::Cgi(error) => error.message(),
            SiteError::Io(message) => message.clone(),
        }
    }
}

/// The reply to a request that failed.
pub fn failure_reply(error: &SiteError) -> (reply: Reply)
    ensures
        reply.is_text(502, "multi-server: "@ + error.text() + "\n"@),
{
    let message = error.message();
    let text = "multi-server: ".to_string().concat(message.as_str()).concat("\n");
    response(502, text.as_str())
}

// ---------------------------------------------------------------------------
// Laws

/// A time is shown in whole seconds, and none at all in the smallest unit.
pub proof fn law_shown_time(seconds: u64)
    ensures
        seconds == 0 ==> duration_text(seconds) == "0ns"@,
        seconds > 0 ==> duration_text(seconds) == decimal_text(seconds as nat) + "s"@,
{
}

/// What an error says names the program, the place, the time, the namespace or
/// the end that it is about.
pub proof fn law_messages(
    program: String,
    status: String,
    port: u16,
    seconds: u64,
    resolve: ResolveError,
    cgi: CgiError,
)
    ensures
        SiteError::Resolve(resolve).text() == resolve.text(),
        SiteError::Cgi(cgi).text() == cgi.text(),
        SiteError::Io(status).text() == status@,
        (SiteError::PrepareNotRun { program }).text() == "failed to run prepare command "@
            + program@,
        (SiteError::PrepareFailed { program, status }).text() == "prepare command "@ + program@
            + " exited with "@ + status@,
        (SiteError::NotStarted { program }).text() == "failed to start "@ + program@,
        (SiteError::NotReady { host: program, port, seconds }).text()
            == "site did not become ready on "@ + program@ + ":"@ + decimal_text(port as nat)
            + " within "@ + duration_text(seconds),
        (SiteError::NamespaceFailed { namespace: program }).text()
            == "failed to configure network namespace "@ + program@,
        (SiteError::StdioExited { status }).text() == "stdio site exited with "@ + status@,
{
}

/// What the other errors say.
pub proof fn law_fixed_messages()
    ensures
        SiteError::UnexpectedProcess.text() == "invalid running state for stdio site"@,
        SiteError::NoProcess.text() == "serve mode does not start a persistent process"@,
        SiteError::NotStdio.text() == "not a stdio service"@,
        SiteError::StdioTimedOut.text() == "stdio site timed out"@,
        SiteError::StdioOutput.text() == "stdio site exceeded its output limit"@,
        SiteError::NotFastcgi.text() == "not a FastCGI service"@,
        SiteError::FastcgiRecord.text() == "invalid FastCGI response"@,
        SiteError::FastcgiOutput.text() == "FastCGI response exceeded its output limit"@,
{
}

} // verus!
