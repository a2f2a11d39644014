//! The life of the process behind a site: when it is started, shared, reloaded
//! and stopped.

use vstd::prelude::*;

verus! {

/// Where a process takes requests.
#[derive(Debug)]
pub struct Upstream {
    /// The host.
    pub host: String,
    /// The port.
    pub port: u16,
}

impl Upstream {
    /// The same place once more.
    pub fn copy(&self) -> (upstream: Upstream)
        ensures
            upstream == *self,
    {
        Upstream { host: self.host.clone(), port: self.port }
    }
}

/// What the process of a site does.
#[derive(Debug)]
pub enum Phase {
    /// There is none.
    Stopped,
    /// Someone prepares the site or starts the process.
    Starting,
    /// It takes requests.
    Running {
        /// Where it takes requests.
        upstream: Upstream,
        /// The network namespace in which it runs, where it has its own.
        namespace: Option<String>,
    },
}

/// The state that all requests for one handler share. Times are in nanoseconds
/// on a clock that does not go back.
#[derive(Debug)]
pub struct ServiceState {
    /// What the process does.
    pub phase: Phase,
    /// When the process was last of use.
    pub last_activity: u128,
    /// The number of requests that are being answered.
    pub active_requests: usize,
    /// Whether the preparation has succeeded.
    pub prepared: bool,
    /// Whether the manifest has changed.
    pub dirty: bool,
}

/// What a request does next to get at a running process.
#[derive(Debug)]
pub enum RunStep {
    /// It waits until the state changes.
    Wait,
    /// It stops the process, releases its namespace and asks again.
    Stop {
        /// The namespace of the process.
        namespace: Option<String>,
    },
    /// It looks whether the process has exited.
    Check,
    /// It starts the process.
    Launch {
        /// Whether the site is prepared first.
        prepare: bool,
    },
}

/// What follows from a look at the process.
#[derive(Debug)]
pub enum CheckStep {
    /// The request goes to the process.
    Use(Upstream),
    /// The process is gone: its namespace is released, and the request asks
    /// again.
    Restart {
        /// The namespace of the process.
        namespace: Option<String>,
    },
}

/// What a request does next to get at a prepared site.
#[derive(Debug)]
pub enum PrepareStep {
    /// The site is prepared.
    Ready,
    /// It waits until the state changes.
    Wait,
    /// It prepares the site.
    Prepare,
    /// A process is running, which a site without one cannot have.
    Invalid,
}

/// What the watch over an idle process does next.
#[derive(Debug)]
pub enum ReapStep {
    /// It ends: there is no process to watch.
    Finish,
    /// It looks again later.
    Continue,
    /// It stops the process, releases its namespace and ends.
    Stop {
        /// The namespace of the process.
        namespace: Option<String>,
    },
}

/// Nanoseconds in a second.
pub const SECOND: u128 = 1_000_000_000;

impl ServiceState {
    /// Whether the preparation has succeeded and the manifest is still the one
    /// that it was done for.
    pub open spec fn stays_prepared(self) -> bool {
        self.prepared && !self.dirty
    }

    /// Whether one more request is let in.
    pub open spec fn admits(self, maximum: usize) -> bool {
        self.active_requests < maximum
    }

    /// The state once one more request is let in.
    pub open spec fn begun(self, renew_idle: bool, now: u128) -> ServiceState {
        ServiceState {
            active_requests: (self.active_requests + 1) as usize,
            last_activity: if renew_idle {
                now
            } else {
                self.last_activity
            },
            ..self
        }
    }

    /// The state once a request is answered.
    pub open spec fn ended(self, renew_idle: bool, now: u128) -> ServiceState {
        ServiceState {
            active_requests: if self.active_requests == 0 {
                0
            } else {
                (self.active_requests - 1) as usize
            },
            last_activity: if renew_idle {
                now
            } else {
                self.last_activity
            },
            ..self
        }
    }

    /// The state once the manifest has changed.
    pub open spec fn changed(self) -> ServiceState {
        ServiceState { dirty: true, ..self }
    }

    /// What a request that needs the process does next.
    pub open spec fn run_step(self) -> RunStep {
        match self.phase {
            Phase::Running { namespace, .. } => if self.dirty && self.active_requests > 0 {
                RunStep::Wait
            } else if self.dirty {
                RunStep::Stop { namespace }
            } else {
                RunStep::Check
            },
            Phase::Starting => RunStep::Wait,
            Phase::Stopped => RunStep::Launch { prepare: self.dirty || !self.prepared },
        }
    }

    /// The state once a request has asked for the process. A start that is
    /// claimed takes in the changes so far: a later one marks the manifest anew.
    pub open spec fn demanded(self, now: u128) -> ServiceState {
        match self.run_step() {
            RunStep::Stop { .. } => ServiceState {
                phase: Phase::Stopped,
                prepared: false,
                ..self
            },
            RunStep::Launch { prepare } => ServiceState {
                phase: Phase::Starting,
                prepared: !prepare,
                dirty: false,
                last_activity: now,
                ..self
            },
            _ => self,
        }
    }

    /// The state once the process was seen to have exited.
    pub open spec fn exited(self) -> ServiceState {
        ServiceState { phase: Phase::Stopped, ..self }
    }

    /// The state once the process runs.
    pub open spec fn launched(self, upstream: Upstream, namespace: Option<String>, now: u128) -> ServiceState {
        ServiceState {
            phase: Phase::Running { upstream, namespace },
            prepared: true,
            last_activity: now,
            ..self
        }
    }

    /// The state once the process did not start. What was to be prepared is still
    /// not prepared.
    pub open spec fn launch_failed(self) -> ServiceState {
        ServiceState { phase: Phase::Stopped, ..self }
    }

    /// What a request that needs only the preparation does next.
    pub open spec fn prepare_step(self) -> PrepareStep {
        if self.prepared && !self.dirty {
            PrepareStep::Ready
        } else if self.active_requests > 0 {
            PrepareStep::Wait
        } else {
            match self.phase {
                Phase::Starting => PrepareStep::Wait,
                Phase::Stopped => PrepareStep::Prepare,
                Phase::Running { .. } => PrepareStep::Invalid,
            }
        }
    }

    /// The state once a request has asked for the preparation.
    pub open spec fn prepare_demanded(self) -> ServiceState {
        ServiceState {
            phase: if self.prepare_step() is Prepare {
                Phase::Starting
            } else {
                self.phase
            },
            prepared: self.prepared && !self.dirty,
            dirty: self.dirty && !(self.prepare_step() is Prepare),
            ..self
        }
    }

    /// The state once the preparation is over.
    pub open spec fn prepare_finished(self, succeeded: bool) -> ServiceState {
        ServiceState {
            phase: Phase::Stopped,
            prepared: self.prepared || succeeded,
            ..self
        }
    }

    /// How long ago the process was last of use.
    pub open spec fn unused_for(self, now: u128) -> int {
        if now > self.last_activity {
            now - self.last_activity
        } else {
            0
        }
    }

    /// Whether the process answers a request or was of use less than `idle`
    /// seconds ago.
    pub open spec fn in_use(self, idle: u64, now: u128) -> bool {
        self.active_requests > 0 || self.unused_for(now) < idle * SECOND
    }

    /// What the watch over an idle process does next.
    pub open spec fn reap_step(self, idle: u64, now: u128) -> ReapStep {
        match self.phase {
            Phase::Running { namespace, .. } => if self.in_use(idle, now) {
                ReapStep::Continue
            } else {
                ReapStep::Stop { namespace }
            },
            _ => ReapStep::Finish,
        }
    }

    /// The state once the watch over an idle process has looked.
    pub open spec fn reaped(self, idle: u64, now: u128) -> ServiceState {
        if self.reap_step(idle, now) is Stop {
            ServiceState { phase: Phase::Stopped, ..self }
        } else {
            self
        }
    }

    /// A service that nobody has used yet.
    pub fn new(now: u128) -> (state: ServiceState)
        ensures
            state == (ServiceState {
                phase: Phase::Stopped,
                last_activity: now,
                active_requests: 0,
                prepared: false,
                dirty: false,
            }),
    {
        ServiceState {
            phase: Phase::Stopped,
            last_activity: now,
            active_requests: 0,
            prepared: false,
            dirty: false,
        }
    }

    /// Lets in one more request, unless `maximum` of them are being answered.
    pub fn begin_request(&mut self, maximum: usize, renew_idle: bool, now: u128) -> (admitted: bool)
        ensures
            admitted == old(self).admits(maximum),
            *final(self) == if admitted {
                old(self).begun(renew_idle, now)
            } else {
                *old(self)
            },
    {
        if self.active_requests >= maximum {
            return false;
        }
        self.active_requests = self.active_requests + 1;
        if renew_idle {
            self.last_activity = now;
        }
        true
    }

    /// Takes out a request that is answered.
    pub fn end_request(&mut self, renew_idle: bool, now: u128)
        ensures
            *final(self) == old(self).ended(renew_idle, now),
    {
        self.active_requests = self.active_requests.saturating_sub(1);
        if renew_idle {
            self.last_activity = now;
        }
    }

    /// Takes note that the manifest has changed.
    pub fn mark_dirty(&mut self)
        ensures
            *final(self) == old(self).changed(),
    {
        self.dirty = true;
    }

    /// Asks for the process. Where it is to be reloaded and nothing uses it, or
    /// where there is none, the state is already that of a stopped or a
    /// starting one, and the caller does what the step says.
    pub fn ensure_running(&mut self, now: u128) -> (step: RunStep)
        ensures
            step == old(self).run_step(),
            *final(self) == old(self).demanded(now),
    {
        let mut phase = Phase::Starting;
        std::mem::swap(&mut self.phase, &mut phase);
        match phase {
            Phase::Running { upstream, namespace } => {
                if self.dirty {
                    if self.active_requests > 0 {
                        self.phase = Phase::Running { upstream, namespace };
                        return RunStep::Wait;
                    }
                    self.phase = Phase::Stopped;
                    self.prepared = false;
                    return RunStep::Stop { namespace };
                }
                self.phase = Phase::Running { upstream, namespace };
                RunStep::Check
            },
            Phase::Starting => RunStep::Wait,
            Phase::Stopped => {
                let prepare = self.dirty || !self.prepared;
                self.prepared = !prepare;
                self.dirty = false;
                self.last_activity = now;
                RunStep::Launch { prepare }
            },
        }
    }

    /// Goes on after a look at the process. Nothing where there is none.
    pub fn child_checked(&mut self, gone: bool) -> (step: Option<CheckStep>)
        ensures
            match old(self).phase {
                Phase::Running { upstream, namespace } => if gone {
                    step == Some(CheckStep::Restart { namespace }) && *final(self)
                        == old(self).exited()
                } else {
                    step == Some(CheckStep::Use(upstream)) && *final(self) == *old(self)
                },
                _ => step is None && *final(self) == *old(self),
            },
            step is Some <==> old(self).phase is Running,
            step matches Some(CheckStep::Use(_)) ==> !gone && final(self).phase is Running,
            step matches Some(CheckStep::Restart { .. }) ==> gone && final(self).phase is Stopped,
            final(self).active_requests == old(self).active_requests,
            final(self).last_activity == old(self).last_activity,
            final(self).prepared == old(self).prepared,
            final(self).dirty == old(self).dirty,
    {
        let mut phase = Phase::Stopped;
        std::mem::swap(&mut self.phase, &mut phase);
        match phase {
            Phase::Running { upstream, namespace } => {
                if gone {
                    return Some(CheckStep::Restart { namespace });
                }
                let place = upstream.copy();
                self.phase = Phase::Running { upstream, namespace };
                Some(CheckStep::Use(place))
            },
            other => {
                self.phase = other;
                None
            },
        }
    }

    /// Takes note that the process runs, and says where it takes requests.
    pub fn launch_succeeded(&mut self, upstream: Upstream, namespace: Option<String>, now: u128) -> (place: Upstream)
        ensures
            place == upstream,
            *final(self) == old(self).launched(upstream, namespace, now),
    {
        self.prepared = true;
        self.last_activity = now;
        let place = upstream.copy();
        self.phase = Phase::Running { upstream, namespace };
        place
    }

    /// Takes note that the preparation failed or the process did not start.
    pub fn launch_refused(&mut self)
        ensures
            *final(self) == old(self).launch_failed(),
    {
        self.phase = Phase::Stopped;
    }

    /// Asks for the preparation. Where it is to be done, the state is already
    /// that of a starting site, and the caller does it.
    pub fn ensure_prepared(&mut self) -> (step: PrepareStep)
        ensures
            step == old(self).prepare_step(),
            *final(self) == old(self).prepare_demanded(),
    {
        if self.dirty {
            self.prepared = false;
        }
        if self.prepared {
            return PrepareStep::Ready;
        }
        if self.active_requests > 0 {
            return PrepareStep::Wait;
        }
        match &self.phase {
            Phase::Starting => PrepareStep::Wait,
            Phase::Stopped => {
                self.phase = Phase::Starting;
                self.dirty = false;
                PrepareStep::Prepare
            },
            Phase::Running { .. } => PrepareStep::Invalid,
        }
    }

    /// Takes note that the preparation is over.
    pub fn finish_prepare(&mut self, succeeded: bool)
        ensures
            *final(self) == old(self).prepare_finished(succeeded),
    {
        self.phase = Phase::Stopped;
        if succeeded {
            self.prepared = true;
        }
    }

    /// Looks whether the process has been idle for `idle` seconds. Where it
    /// has, the state is already that of a stopped one, and the caller stops
    /// it.
    pub fn reap(&mut self, idle: u64, now: u128) -> (step: ReapStep)
        ensures
            step == old(self).reap_step(idle, now),
            *final(self) == old(self).reaped(idle, now),
    {
        let mut phase = Phase::Stopped;
        std::mem::swap(&mut self.phase, &mut phase);
        match phase {
            Phase::Running { upstream, namespace } => {
                let elapsed = now.saturating_sub(self.last_activity);
                let limit = idle as u128 * SECOND;
                if self.active_requests > 0 || elapsed < limit {
                    self.phase = Phase::Running { upstream, namespace };
                    return ReapStep::Continue;
                }
                ReapStep::Stop { namespace }
            },
            other => {
                self.phase = other;
                ReapStep::Finish
            },
        }
    }
}

/// How long the watch over an idle process sleeps, in seconds.
pub fn reap_interval(idle: u64) -> (seconds: u64)
    ensures
        seconds == if idle > 1 {
            idle
        } else {
            1
        },
        seconds >= 1,
        seconds >= idle,
        seconds > idle ==> idle == 0,
{
    if idle > 1 {
        idle
    } else {
        1
    }
}

// ---------------------------------------------------------------------------
// Laws

/// A request that is being answered keeps the process: neither a reload nor
/// the watch over idle processes stops it.
pub proof fn law_active_requests_keep_the_process(state: ServiceState, idle: u64, now: u128)
    requires
        state.active_requests > 0,
        state.phase is Running,
    ensures
        state.reap_step(idle, now) is Continue,
        state.reaped(idle, now).phase == state.phase,
        !(state.run_step() is Stop),
        state.demanded(now).phase == state.phase,
        state.changed().demanded(now).phase == state.phase,
{
}

/// A process that was of use less than the idle time ago is not stopped, and
/// one that was not, and answers nothing, is.
pub proof fn law_idle_time_decides(state: ServiceState, idle: u64, now: u128)
    requires
        state.phase is Running,
        state.active_requests == 0,
    ensures
        state.reap_step(idle, now) is Stop <==> state.unused_for(now) >= idle * SECOND,
        state.reaped(idle, now).phase is Stopped <==> state.unused_for(now) >= idle * SECOND,
{
}

/// The way of a request through a running process whose manifest has not
/// changed, from its demand to its end. One that does not renew the idle time
/// leaves the state as it was, and one that does moves the idle time to its end
/// and nothing else.
pub proof fn law_only_activity_renews(
    state: ServiceState,
    maximum: usize,
    renew_idle: bool,
    demand: u128,
    begin: u128,
    end: u128,
)
    requires
        state.phase is Running,
        !state.dirty,
        state.demanded(demand).admits(maximum),
    ensures
        state.run_step() is Check,
        state.demanded(demand) == state,
        state.demanded(demand).begun(renew_idle, begin).ended(renew_idle, end) == (ServiceState {
            last_activity: if renew_idle {
                end
            } else {
                state.last_activity
            },
            ..state
        }),
{
}

/// A request that waits for the process, or stops it to have it reloaded, does
/// not renew the idle time.
pub proof fn law_waiting_does_not_renew(state: ServiceState, now: u128)
    requires
        !(state.run_step() is Launch),
    ensures
        state.demanded(now).last_activity == state.last_activity,
{
}

/// There are never more requests than the limit allows, and one is turned away
/// only at the limit.
pub proof fn law_concurrency_limit(state: ServiceState, maximum: usize, renew_idle: bool, now: u128)
    requires
        state.active_requests <= maximum,
    ensures
        state.admits(maximum) <==> state.active_requests != maximum,
        state.admits(maximum) ==> state.begun(renew_idle, now).active_requests <= maximum,
        state.ended(renew_idle, now).active_requests <= maximum,
{
}

/// Only the beginning and the end of a request change the number of requests
/// that are being answered.
pub proof fn law_only_requests_are_counted(
    state: ServiceState,
    upstream: Upstream,
    namespace: Option<String>,
    succeeded: bool,
    idle: u64,
    now: u128,
)
    ensures
        state.changed().active_requests == state.active_requests,
        state.demanded(now).active_requests == state.active_requests,
        state.exited().active_requests == state.active_requests,
        state.launched(upstream, namespace, now).active_requests == state.active_requests,
        state.launch_failed().active_requests == state.active_requests,
        state.prepare_demanded().active_requests == state.active_requests,
        state.prepare_finished(succeeded).active_requests == state.active_requests,
        state.reaped(idle, now).active_requests == state.active_requests,
{
}

/// The end of a request undoes its beginning, but for the idle time.
pub proof fn law_end_undoes_begin(
    state: ServiceState,
    maximum: usize,
    renew_idle: bool,
    begin: u128,
    end: u128,
)
    requires
        state.admits(maximum),
    ensures
        state.begun(renew_idle, begin).ended(renew_idle, end) == (ServiceState {
            last_activity: if renew_idle {
                end
            } else {
                state.last_activity
            },
            ..state
        }),
{
}

/// While someone starts a process or prepares a site, nobody else does: every
/// other request waits, and the phase stays until the one who started is done.
pub proof fn law_one_starts_at_a_time(
    state: ServiceState,
    renew_idle: bool,
    idle: u64,
    now: u128,
)
    requires
        state.phase is Starting,
    ensures
        state.run_step() is Wait,
        state.demanded(now).phase is Starting,
        state.prepare_step() is Wait || state.prepare_step() is Ready,
        state.prepare_demanded().phase is Starting,
        state.begun(renew_idle, now).phase is Starting,
        state.ended(renew_idle, now).phase is Starting,
        state.changed().phase is Starting,
        state.reaped(idle, now).phase is Starting,
{
}

/// Whoever is told to start a process or to prepare a site finds it stopped,
/// and leaves it starting.
pub proof fn law_start_is_claimed(state: ServiceState, now: u128)
    ensures
        state.run_step() is Launch ==> state.phase is Stopped && state.demanded(now).phase is Starting,
        state.prepare_step() is Prepare ==> state.phase is Stopped
            && state.prepare_demanded().phase is Starting,
{
}

/// A change of the manifest leaves a running process until a request arrives
/// and no other is being answered. Then the process is stopped, and the next
/// start prepares the site again.
pub proof fn law_change_reloads(state: ServiceState, now: u128, later: u128)
    requires
        state.phase is Running,
    ensures
        state.changed().phase == state.phase,
        state.active_requests > 0 ==> state.changed().run_step() is Wait,
        state.active_requests == 0 ==> state.changed().run_step() is Stop,
        state.active_requests == 0 ==> state.changed().demanded(now).phase is Stopped,
        state.active_requests == 0 ==> state.changed().demanded(now).run_step() == (
        RunStep::Launch { prepare: true }),
        state.active_requests == 0 ==> state.changed().demanded(now).demanded(later).phase is Starting,
{
}

/// A change of the manifest of a stopped site makes the next start prepare it
/// again.
pub proof fn law_change_prepares_again(state: ServiceState)
    requires
        state.phase is Stopped,
    ensures
        state.changed().phase is Stopped,
        state.changed().run_step() == (RunStep::Launch { prepare: true }),
        state.active_requests == 0 ==> state.changed().prepare_step() is Prepare,
{
}

/// A change of the manifest while someone starts the process or prepares the
/// site is not forgotten: once the start is over, the next request that finds no
/// other reloads the process, and the preparation is done again.
pub proof fn law_change_during_start_is_honoured(
    state: ServiceState,
    upstream: Upstream,
    namespace: Option<String>,
    now: u128,
    later: u128,
)
    requires
        state.phase is Starting,
    ensures
        ({
            let running = state.changed().launched(upstream, namespace, now);
            &&& state.active_requests == 0 ==> running.run_step() is Stop
            &&& state.active_requests > 0 ==> running.run_step() is Wait
            &&& state.active_requests == 0 ==> running.demanded(later).run_step() == (
            RunStep::Launch { prepare: true })
        }),
        state.changed().launch_failed().run_step() == (RunStep::Launch { prepare: true }),
        !(state.changed().prepare_finished(true).prepare_step() is Ready),
        state.active_requests == 0 ==> state.changed().prepare_finished(true).prepare_step() is Prepare,
        state.active_requests == 0 ==> state.changed().prepare_finished(false).prepare_step() is Prepare,
{
}

/// The preparation runs once: after a start that succeeded, no start prepares
/// the site again until the manifest changes.
pub proof fn law_prepared_once(
    state: ServiceState,
    upstream: Upstream,
    namespace: Option<String>,
    renew_idle: bool,
    idle: u64,
    now: u128,
)
    ensures
        !state.dirty ==> state.launched(upstream, namespace, now).stays_prepared(),
        state.stays_prepared() ==> !(state.run_step() == (RunStep::Launch { prepare: true })),
        state.stays_prepared() ==> state.prepare_step() is Ready,
        state.stays_prepared() ==> state.begun(renew_idle, now).stays_prepared(),
        state.stays_prepared() ==> state.ended(renew_idle, now).stays_prepared(),
        state.stays_prepared() ==> state.demanded(now).stays_prepared(),
        state.stays_prepared() ==> state.exited().stays_prepared(),
        state.stays_prepared() ==> state.launch_failed().stays_prepared(),
        state.stays_prepared() ==> state.prepare_demanded().stays_prepared(),
        state.stays_prepared() ==> state.reaped(idle, now).stays_prepared(),
{
}

/// A start that fails leaves no process, and a preparation that failed is done
/// again by the next start.
pub proof fn law_failed_start_leaves_nothing(state: ServiceState, now: u128)
    requires
        state.phase is Stopped,
    ensures
        state.demanded(now).launch_failed().phase is Stopped,
        state.run_step() == (RunStep::Launch { prepare: true }) ==> state.demanded(
            now,
        ).launch_failed().run_step() == (RunStep::Launch { prepare: true }),
        state.demanded(now).launch_failed().run_step() == state.run_step(),
        state.prepare_step() is Prepare ==> state.prepare_demanded().prepare_finished(
            false,
        ).prepare_step() is Prepare,
{
}

/// Whoever takes a process out of service is handed its network namespace, to
/// release it.
pub proof fn law_namespace_is_handed_over(state: ServiceState, idle: u64, now: u128)
    ensures
        state.phase matches Phase::Running { namespace, .. } ==> {
            &&& !(state.demanded(now).phase is Running) ==> state.run_step() == (RunStep::Stop {
                namespace,
            })
            &&& !(state.reaped(idle, now).phase is Running) ==> state.reap_step(idle, now) == (
            ReapStep::Stop { namespace })
        },
{
}

/// A request is let in while fewer than the maximum are being answered. Its
/// beginning counts one more and its end one less, never below none; each moves
/// the idle time to now if and only if the request renews it, and neither changes
/// anything else.
pub proof fn law_requests_are_counted(
    state: ServiceState,
    maximum: usize,
    renew_idle: bool,
    now: u128,
)
    ensures
        state.admits(maximum) <==> state.active_requests < maximum,
        state.active_requests < usize::MAX ==> state.begun(renew_idle, now).active_requests
            == state.active_requests + 1,
        state.active_requests > 0 ==> state.ended(renew_idle, now).active_requests
            == state.active_requests - 1,
        state.active_requests == 0 ==> state.ended(renew_idle, now).active_requests == 0,
        renew_idle ==> state.begun(renew_idle, now).last_activity == now && state.ended(
            renew_idle,
            now,
        ).last_activity == now,
        !renew_idle ==> state.begun(renew_idle, now).last_activity == state.last_activity
            && state.ended(renew_idle, now).last_activity == state.last_activity,
        state.begun(renew_idle, now).phase == state.phase,
        state.begun(renew_idle, now).prepared == state.prepared,
        state.begun(renew_idle, now).dirty == state.dirty,
        state.ended(renew_idle, now).phase == state.phase,
        state.ended(renew_idle, now).prepared == state.prepared,
        state.ended(renew_idle, now).dirty == state.dirty,
{
}

/// A change of the manifest marks it, and changes nothing else.
pub proof fn law_change_is_marked(state: ServiceState)
    ensures
        state.changed().dirty,
        state.changed().phase == state.phase,
        state.changed().prepared == state.prepared,
        state.changed().active_requests == state.active_requests,
        state.changed().last_activity == state.last_activity,
{
}

/// What a request for the process does next: it starts one that is stopped,
/// preparing the site first if and only if it is not prepared or the manifest has
/// changed; it waits while someone else starts it; and of one that runs it looks
/// whether it has exited, unless the manifest has changed. Then it stops the
/// process, or waits while others use it.
pub proof fn law_demand(state: ServiceState)
    ensures
        state.phase is Stopped ==> (state.run_step() matches RunStep::Launch { prepare } && (prepare
            <==> state.dirty || !state.prepared)),
        state.phase is Starting ==> state.run_step() is Wait,
        state.phase is Running && !state.dirty ==> state.run_step() is Check,
        state.phase is Running && state.dirty && state.active_requests > 0 ==> state.run_step()
            is Wait,
        state.phase matches Phase::Running { namespace, .. } ==> state.dirty
            && state.active_requests == 0 ==> (state.run_step() matches RunStep::Stop {
            namespace: handed,
        } && handed == namespace),
{
}

/// What a request for the process leaves behind: a start that it claims, of a
/// manifest without changes and from now on; a stop, after which the site is to
/// be prepared again; and else the state as it was.
pub proof fn law_demanded(state: ServiceState, now: u128)
    ensures
        state.run_step() is Launch ==> {
            &&& state.demanded(now).phase is Starting
            &&& !state.demanded(now).dirty
            &&& state.demanded(now).prepared <==> state.prepared && !state.dirty
            &&& state.demanded(now).last_activity == now
        },
        state.run_step() is Stop ==> {
            &&& state.demanded(now).phase is Stopped
            &&& state.demanded(now).dirty == state.dirty
            &&& !state.demanded(now).prepared
            &&& state.demanded(now).last_activity == state.last_activity
        },
        state.run_step() is Wait || state.run_step() is Check ==> state.demanded(now) == state,
        state.demanded(now).active_requests == state.active_requests,
{
}

/// A start that succeeded runs where it says, prepared and of use from now on; a
/// process that exited or did not start is stopped. Nothing else changes.
pub proof fn law_start_and_exit(
    state: ServiceState,
    upstream: Upstream,
    namespace: Option<String>,
    now: u128,
)
    ensures
        ({
            let running = state.launched(upstream, namespace, now);
            &&& running.phase == (Phase::Running { upstream, namespace })
            &&& running.prepared
            &&& running.last_activity == now
            &&& running.dirty == state.dirty
            &&& running.active_requests == state.active_requests
        }),
        ({
            let gone = state.exited();
            &&& gone.phase is Stopped
            &&& gone.prepared == state.prepared
            &&& gone.last_activity == state.last_activity
            &&& gone.dirty == state.dirty
            &&& gone.active_requests == state.active_requests
        }),
        ({
            let failed = state.launch_failed();
            &&& failed.phase is Stopped
            &&& failed.prepared == state.prepared
            &&& failed.last_activity == state.last_activity
            &&& failed.dirty == state.dirty
            &&& failed.active_requests == state.active_requests
        }),
{
}

/// What a request for the preparation does next: nothing more where it is done
/// and the manifest has not changed; else it waits while others are answered or
/// someone prepares, and prepares a site that is stopped.
pub proof fn law_preparation_demand(state: ServiceState)
    ensures
        state.prepare_step() is Ready <==> state.prepared && !state.dirty,
        !state.prepared || state.dirty ==> {
            &&& state.active_requests > 0 || state.phase is Starting ==> state.prepare_step() is Wait
            &&& state.active_requests == 0 && state.phase is Stopped ==> state.prepare_step()
                is Prepare
            &&& state.active_requests == 0 && state.phase is Running ==> state.prepare_step()
                is Invalid
        },
{
}

/// What a request for the preparation leaves behind: a start where it prepares,
/// and a site that is not prepared where the manifest has changed. What is over
/// leaves the site stopped, and prepared where it succeeded.
pub proof fn law_preparation_demanded(state: ServiceState, succeeded: bool)
    ensures
        state.prepare_step() is Prepare ==> state.prepare_demanded().phase is Starting
            && !state.prepare_demanded().dirty,
        !(state.prepare_step() is Prepare) ==> state.prepare_demanded().phase == state.phase
            && state.prepare_demanded().dirty == state.dirty,
        state.prepare_demanded().prepared <==> state.prepared && !state.dirty,
        state.prepare_demanded().active_requests == state.active_requests,
        state.prepare_demanded().last_activity == state.last_activity,
        state.prepare_finished(succeeded).phase is Stopped,
        state.prepare_finished(succeeded).prepared <==> state.prepared || succeeded,
        state.prepare_finished(succeeded).dirty == state.dirty,
        state.prepare_finished(succeeded).active_requests == state.active_requests,
        state.prepare_finished(succeeded).last_activity == state.last_activity,
{
}

/// The watch stops a process if and only if it answers nothing and was last of
/// use the idle time ago or earlier, to the nanosecond; it goes on watching any
/// other that runs, and ends where none does. A stop changes the phase alone.
pub proof fn law_watch(state: ServiceState, idle: u64, now: u128)
    ensures
        !(state.phase is Running) ==> state.reap_step(idle, now) is Finish,
        state.phase is Running ==> (state.reap_step(idle, now) is Stop <==> state.active_requests
            == 0 && (idle == 0 || state.last_activity + idle * 1_000_000_000 <= now)),
        state.phase is Running ==> state.reap_step(idle, now) is Stop || state.reap_step(idle, now)
            is Continue,
        state.phase matches Phase::Running { namespace, .. } ==> state.reap_step(idle, now)
            matches ReapStep::Stop { namespace: handed } ==> handed == namespace,
        state.reap_step(idle, now) is Stop ==> state.reaped(idle, now) == (ServiceState {
            phase: Phase::Stopped,
            ..state
        }),
        !(state.reap_step(idle, now) is Stop) ==> state.reaped(idle, now) == state,
{
}

/// A process was last of use as long ago as the clock has gone on since, and not
/// at all long ago where it has not.
pub proof fn law_time_without_use(state: ServiceState, now: u128)
    ensures
        now >= state.last_activity ==> state.unused_for(now) == now - state.last_activity,
        now <= state.last_activity ==> state.unused_for(now) == 0,
{
}

} // verus!
