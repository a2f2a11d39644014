//! The programs that a site runs, and its preparation.

use vstd::prelude::*;

use crate::environment::Environment;
use crate::error::SiteError;
use crate::path::{joined, FilePath};
use crate::resolver::ResolvedSite;
use crate::text::string_views;

verus! {

/// A program to run.
#[derive(Debug)]
pub struct Invocation {
    /// The program.
    pub program: String,
    /// Its arguments.
    pub arguments: Vec<String>,
    /// Where it runs.
    pub directory: FilePath,
    /// Its environment variables, besides those that it inherits.
    pub environment: Environment,
}

/// How a program ended.
#[derive(Debug)]
pub enum ProgramEnd {
    /// It did not start.
    NotStarted,
    /// It exited.
    Exited {
        /// Whether it succeeded.
        success: bool,
        /// How its end is shown.
        status: String,
    },
}

impl ProgramEnd {
    /// Whether the program ran and succeeded.
    pub open spec fn succeeded(self) -> bool {
        self matches ProgramEnd::Exited { success, .. } && success
    }
}

impl Invocation {
    /// Whether this runs `command` in `directory` with these variables.
    pub open spec fn runs(
        self,
        command: Seq<Seq<char>>,
        directory: Seq<u8>,
        environment: Map<Seq<char>, Seq<char>>,
    ) -> bool {
        &&& command.len() > 0
        &&& self.program@ == command[0]
        &&& string_views(self.arguments@) == command.skip(1)
        &&& self.directory@ == directory
        &&& self.environment@ == environment
    }
}

/// What `command` runs in `directory` with these variables.
pub fn invocation(command: &Vec<String>, directory: FilePath, environment: Environment) -> (run:
    Invocation)
    requires
        command@.len() > 0,
    ensures
        run.runs(string_views(command@), directory@, environment@),
{
    let mut arguments: Vec<String> = Vec::new();
    let mut i: usize = 1;
    while i < command.len()
        invariant
            1 <= i <= command@.len(),
            arguments@.len() == i - 1,
            forall|k: int| 0 <= k < i - 1 ==> (#[trigger] arguments@[k])@ == command@[k + 1]@,
        decreases command@.len() - i,
    {
        arguments.push(command[i].clone());
        i = i + 1;
    }
    assert(string_views(arguments@) =~= string_views(command@).skip(1));
    Invocation { program: command[0].clone(), arguments, directory, environment }
}

/// The error of a program that did not start.
pub fn start_refused(run: &Invocation) -> (error: SiteError)
    ensures
        error == (SiteError::NotStarted { program: run.program }),
{
    SiteError::NotStarted { program: run.program.clone() }
}

/// Where a program of a site runs: in the site's directory, or where the
/// manifest says, seen from there.
pub open spec fn working_place(directory: Seq<u8>, working_directory: Option<String>) -> Seq<u8> {
    match working_directory {
        Some(inner) => joined(directory, vstd::utf8::encode_utf8(inner@)),
        None => directory,
    }
}

/// Where a program of a site runs.
pub fn program_directory(directory: &FilePath, working_directory: &Option<String>) -> (place:
    FilePath)
    ensures
        place@ == working_place(directory@, *working_directory),
{
    match working_directory {
        Some(inner) => directory.join(inner.as_str()),
        None => directory.copy(),
    }
}

// ---------------------------------------------------------------------------
// Preparation

/// What the preparation of a site does next.
#[derive(Debug)]
pub enum Preparation {
    /// It runs the next command.
    Run(Invocation),
    /// It is done.
    Done,
    /// It has failed.
    Failed(SiteError),
}

/// The failure of a step of the preparation.
pub open spec fn step_failed(program: Seq<char>, end: ProgramEnd, error: SiteError) -> bool {
    match end {
        ProgramEnd::NotStarted => error matches SiteError::PrepareNotRun { program: shown }
            && shown@ == program,
        ProgramEnd::Exited { status, .. } => error matches SiteError::PrepareFailed {
            program: shown,
            status: end_shown,
        } && shown@ == program && end_shown@ == status@,
    }
}

/// What the preparation does next, once the first commands have ended like
/// this.
pub open spec fn preparation_step(site: ResolvedSite, ends: Seq<ProgramEnd>, step: Preparation) -> bool {
    let commands = site.manifest.prepare@;
    if ends.len() > 0 && !ends.last().succeeded() {
        step matches Preparation::Failed(error) && step_failed(
            commands[ends.len() - 1]@[0]@,
            ends.last(),
            error,
        )
    } else if ends.len() < commands.len() {
        step matches Preparation::Run(run) && run.runs(
            string_views(commands[ends.len() as int]@),
            site.directory@,
            Map::empty(),
        )
    } else {
        step is Done
    }
}

/// What the preparation of a site does next, once its first commands have ended
/// like this: it runs them in order, in the directory of the site, and fails
/// with the first that does.
pub fn prepare_site(site: &ResolvedSite, ends: &Vec<ProgramEnd>) -> (step: Preparation)
    requires
        site.manifest.preparable(),
        ends@.len() <= site.manifest.prepare@.len(),
    ensures
        preparation_step(*site, ends@, step),
{
    let commands = &site.manifest.prepare;
    let done = ends.len();
    if done > 0 {
        assert(commands@[done - 1]@.len() > 0);
        let program = &commands[done - 1][0];
        match &ends[done - 1] {
            ProgramEnd::NotStarted => {
                return Preparation::Failed(SiteError::PrepareNotRun { program: program.clone() });
            },
            ProgramEnd::Exited { success, status } => {
                if !*success {
                    return Preparation::Failed(
                        SiteError::PrepareFailed {
                            program: program.clone(),
                            status: status.clone(),
                        },
                    );
                }
            },
        }
    }
    if done < commands.len() {
        assert(commands@[done as int]@.len() > 0);
        let run = invocation(&commands[done], site.directory.copy(), Environment::new());
        Preparation::Run(run)
    } else {
        Preparation::Done
    }
}

/// The preparation is done only once every command has run and succeeded, and
/// a command runs only once all before it have. `steps` are the steps of one
/// preparation, and `ends` how the programs ended that they ran.
pub proof fn law_every_command_succeeds(
    site: ResolvedSite,
    ends: Seq<ProgramEnd>,
    steps: Seq<Preparation>,
)
    requires
        steps.len() == ends.len() + 1,
        forall|k: int|
            0 <= k < steps.len() ==> preparation_step(site, ends.take(k), #[trigger] steps[k]),
        forall|k: int| 0 <= k < ends.len() ==> (#[trigger] steps[k]) is Run,
    ensures
        !(steps.last() is Failed) ==> forall|k: int|
            0 <= k < ends.len() ==> (#[trigger] ends[k]).succeeded(),
        steps.last() is Done ==> ends.len() == site.manifest.prepare@.len(),
{
    assert(steps.last() == steps[ends.len() as int]);
    assert(ends.take(ends.len() as int) =~= ends);
    if !(steps.last() is Failed) {
        assert forall|k: int| 0 <= k < ends.len() implies (#[trigger] ends[k]).succeeded() by {
            assert(!(steps[k + 1] is Failed));
            assert(ends.take(k + 1).last() == ends[k]);
        }
    }
    if ends.len() > 0 {
        assert(steps[ends.len() - 1] is Run);
        assert(ends.take(ends.len() - 1).len() < site.manifest.prepare@.len());
    }
}

// ---------------------------------------------------------------------------
// Stopping

/// What has been seen of a process that is being stopped.
#[derive(Debug, PartialEq, Eq, Structural, Clone, Copy)]
pub enum StopSeen {
    /// Nothing was done yet.
    Nothing,
    /// It exited within the time that it was given.
    Exited,
    /// It is still running after that time.
    StillRunning,
}

/// What is done next to stop a process.
#[derive(Debug, PartialEq, Eq, Structural, Clone, Copy)]
pub enum StopStep {
    /// Its process group is asked to end, and it is given some time.
    Terminate {
        /// The process group.
        group: u32,
        /// The time.
        grace_seconds: u64,
    },
    /// Its process group is made to end, and its exit is waited for.
    KillGroup {
        /// The process group.
        group: u32,
    },
    /// It is made to end itself, and its exit is waited for.
    KillChild,
    /// It is over.
    Finished,
}

/// What is done next to stop a process, which may no longer be known by a
/// number: its group is asked to end before it is made to.
pub fn terminate_process_group(pid: Option<u32>, grace_seconds: u64, seen: StopSeen) -> (step: StopStep)
    ensures
        step == match pid {
            Some(group) => match seen {
                StopSeen::Nothing => StopStep::Terminate { group, grace_seconds },
                StopSeen::Exited => StopStep::Finished,
                StopSeen::StillRunning => StopStep::KillGroup { group },
            },
            None => match seen {
                StopSeen::Exited => StopStep::Finished,
                _ => StopStep::KillChild,
            },
        },
        step is Finished <==> seen is Exited,
        step matches StopStep::Terminate { group, grace_seconds: grace } ==> pid == Some(group)
            && grace == grace_seconds && seen is Nothing,
        step matches StopStep::KillGroup { group } ==> pid == Some(group) && seen is StillRunning,
        step is KillChild <==> pid is None && !(seen is Exited),
{
    match seen {
        StopSeen::Exited => StopStep::Finished,
        StopSeen::Nothing => match pid {
            Some(group) => StopStep::Terminate { group, grace_seconds },
            None => StopStep::KillChild,
        },
        StopSeen::StillRunning => match pid {
            Some(group) => StopStep::KillGroup { group },
            None => StopStep::KillChild,
        },
    }
}

// ---------------------------------------------------------------------------
// Laws

/// A program that did not start, or exited without success, has not succeeded;
/// one that exited with success has.
pub proof fn law_success(end: ProgramEnd)
    ensures
        end is NotStarted ==> !end.succeeded(),
        end matches ProgramEnd::Exited { success, .. } ==> (end.succeeded() <==> success),
{
}

/// The first word of a command is the program, and the others are its arguments,
/// in their order. It runs in the directory and with the variables that are
/// given, and with no others.
pub proof fn law_command_is_run(
    run: Invocation,
    command: Seq<Seq<char>>,
    directory: Seq<u8>,
    environment: Map<Seq<char>, Seq<char>>,
)
    requires
        run.runs(command, directory, environment),
    ensures
        command.len() >= 1,
        run.program@ == command[0],
        run.arguments@.len() == command.len() - 1,
        forall|i: int|
            0 <= i < run.arguments@.len() ==> (#[trigger] run.arguments@[i])@ == command[i + 1],
        run.directory@ == directory,
        run.environment@ == environment,
{
    assert(string_views(run.arguments@).len() == run.arguments@.len());
    assert forall|i: int| 0 <= i < run.arguments@.len() implies (#[trigger] run.arguments@[i])@
        == command[i + 1] by {
        assert(string_views(run.arguments@)[i] == command.skip(1)[i]);
    }
}

/// A program runs in the directory of the site where the manifest names no
/// other, and else in the one that it names from there.
pub proof fn law_working_place(directory: Seq<u8>, inner: String)
    ensures
        working_place(directory, None) == directory,
        working_place(directory, Some(inner)) == joined(
            directory,
            vstd::utf8::encode_utf8(inner@),
        ),
{
}

/// A step of the preparation runs the next command, in the directory of the site
/// and with no further variables. It fails if and only if the last command has
/// not succeeded, and says which it was and how it ended. It is done if and only
/// if no command is left.
pub proof fn law_preparation_step(site: ResolvedSite, ends: Seq<ProgramEnd>, step: Preparation)
    requires
        preparation_step(site, ends, step),
        ends.len() <= site.manifest.prepare@.len(),
        site.manifest.preparable(),
    ensures
        step is Failed <==> ends.len() > 0 && !ends.last().succeeded(),
        step is Done <==> ends.len() == site.manifest.prepare@.len() && (ends.len() == 0
            || ends.last().succeeded()),
        step matches Preparation::Run(run) ==> {
            let command = site.manifest.prepare@[ends.len() as int]@;
            &&& ends.len() < site.manifest.prepare@.len()
            &&& run.program@ == command[0]@
            &&& run.arguments@.len() == command.len() - 1
            &&& forall|i: int|
                0 <= i < run.arguments@.len() ==> (#[trigger] run.arguments@[i])@ == command[i + 1]@
            &&& run.directory@ == site.directory@
            &&& run.environment@.dom().len() == 0
        },
        step matches Preparation::Failed(error) ==> {
            let program = site.manifest.prepare@[ends.len() - 1]@[0]@;
            &&& ends.last() is NotStarted ==> (error matches SiteError::PrepareNotRun {
                program: shown,
            } && shown@ == program)
            &&& ends.last() matches ProgramEnd::Exited { status, .. }
                ==> (error matches SiteError::PrepareFailed { program: shown, status: end }
                && shown@ == program && end@ == status@)
        },
{
    if let Preparation::Run(run) = step {
        let command = site.manifest.prepare@[ends.len() as int]@;
        let views = string_views(command);
        law_command_is_run(run, views, site.directory@, Map::empty());
        assert(views.len() == command.len());
        assert(views[0] == command[0]@);
        assert forall|i: int| 0 <= i < run.arguments@.len() implies (#[trigger] run.arguments@[i])@
            == command[i + 1]@ by {
            assert(views[i + 1] == command[i + 1]@);
        }
        assert(run.environment@.dom() =~= Set::empty());
    }
}

} // verus!
