//! What the daemon knows about the engine it runs, and every decision it takes about it.
//!
//! Running the engine is I/O: writing the parameter file, installing the firewall rules, spawning
//! and killing the process. Which of those to do, and what the state is afterwards, is decided
//! here. The caller performs the step [`EngineState::next_step`] names and reports back what
//! happened; times are readings of a monotonic clock in milliseconds.
//!
//! Order matters and is the same on every path: validate the config, write the parameter file,
//! ask the engine to check it, install the firewall rules, then start it. Rules go in last because
//! rules pointing at a queue nothing reads is the state that breaks a user's network, and they
//! come out first on the way down.

use crate::config::{config_error, opt_view, string_views, Config, ConfigError, ConfigView};
use crate::paths::{join_path, joined};
use crate::registry::Platform;
use crate::render::{EngineOptions, EngineOptionsView};
use crate::protocol::{idle_status, EngineStatus, EngineStatusView};
use crate::supervisor::{
    after_exit, backoff_ms, decide, keep_recent, Decision, Supervisor, MAX_RESTARTS, WINDOW_MS,
};
use crate::text::{
    copy_str, decimal, lines, lines_of, parse_u64, parse_u64_str, push_decimal, push_str, trim,
    trim_str,
};
use vstd::prelude::*;
use vstd::string::*;

verus! {

/// What is running, and what to bring back if it dies.
pub struct Active {
    config: Config,
    ephemeral: bool,
    /// Unix epoch seconds the engine started at, when the clock could be read.
    started_at: Option<u64>,
    /// Set while waiting out a restart backoff; the engine is down until this passes.
    restart_at: Option<u64>,
    /// Dead-man's switch for a trial run. It lives in the daemon rather than in the GUI because
    /// the case it exists for is the one where the GUI cannot help: a strategy that takes the
    /// network down with it, or a client that crashed while the rules were up.
    revert_at: Option<u64>,
}

pub struct EngineState {
    version: Option<String>,
    pid: Option<u32>,
    active: Option<Active>,
    supervisor: Supervisor,
    last_error: Option<String>,
}

pub struct ActiveView {
    pub config: ConfigView,
    pub ephemeral: bool,
    pub started_at: Option<u64>,
    pub restart_at: Option<u64>,
    pub revert_at: Option<u64>,
}

pub struct EngineStateView {
    /// Version the engine binary reported.
    pub version: Option<Seq<char>>,
    /// The running engine process, if any.
    pub pid: Option<u32>,
    pub active: Option<ActiveView>,
    /// Restarts inside the supervisor's window.
    pub restarts: Seq<u64>,
    pub last_error: Option<Seq<char>>,
}

impl View for Active {
    type V = ActiveView;

    closed spec fn view(&self) -> ActiveView {
        ActiveView {
            config: self.config@,
            ephemeral: self.ephemeral,
            started_at: self.started_at,
            restart_at: self.restart_at,
            revert_at: self.revert_at,
        }
    }
}

pub open spec fn active_view(a: Option<Active>) -> Option<ActiveView> {
    match a {
        Some(a) => Some(a@),
        None => None,
    }
}

impl View for EngineState {
    type V = EngineStateView;

    closed spec fn view(&self) -> EngineStateView {
        EngineStateView {
            version: opt_view(self.version),
            pid: self.pid,
            active: active_view(self.active),
            restarts: self.supervisor@,
            last_error: opt_view(self.last_error),
        }
    }
}

/// What the caller should do next.
#[derive(Debug, Clone, Copy, PartialEq, Eq, Structural)]
pub enum Step {
    /// Nobody confirmed the trial run in time: stop everything and say why.
    Revert,
    /// The backoff has passed: spawn the active config again.
    Restart,
    /// Check whether the engine process is still alive.
    Watch,
    /// Nothing to do now.
    Idle,
}

/// What a deliberate start involves beyond spawning.
#[derive(Debug, Clone, Copy, PartialEq, Eq, Structural)]
pub struct StartPlan {
    /// An engine is running and has to be stopped first.
    pub stop_first: bool,
    /// The config becomes the one brought back at boot. Ephemeral runs never are: not surviving
    /// a restart is the whole point of them.
    pub persist: bool,
}

// ---------------------------------------------------------------------------------------------
// Specification
// ---------------------------------------------------------------------------------------------

pub open spec fn revert_due(s: EngineStateView, now: u64) -> bool {
    &&& s.active is Some
    &&& s.active->0.revert_at is Some
    &&& now >= s.active->0.revert_at->0
}

/// The revert deadline comes first; then a pending restart, which leaves nothing else to do until
/// it is due; then the process, if there is one.
pub open spec fn next_step(s: EngineStateView, now: u64) -> Step {
    if revert_due(s, now) {
        Step::Revert
    } else if s.active is Some && s.active->0.restart_at is Some {
        if now >= s.active->0.restart_at->0 {
            Step::Restart
        } else {
            Step::Idle
        }
    } else if s.pid is Some {
        Step::Watch
    } else {
        Step::Idle
    }
}

/// Whole seconds from `now` until `at`, none once it has passed.
pub open spec fn seconds_until(at: u64, now: u64) -> u64 {
    if at > now {
        ((at - now) / 1000) as u64
    } else {
        0
    }
}

pub open spec fn status_of(s: EngineStateView, now: u64) -> EngineStatusView {
    EngineStatusView {
        running: s.pid is Some,
        active_config: match s.active {
            Some(a) => Some(a.config.name),
            None => None,
        },
        ephemeral: s.active is Some && s.active->0.ephemeral,
        pid: s.pid,
        started_at: match s.active {
            Some(a) => a.started_at,
            None => None,
        },
        engine_version: s.version,
        last_error: s.last_error,
        revert_in_seconds: match s.active {
            Some(a) => match a.revert_at {
                Some(at) => Some(seconds_until(at, now)),
                None => None,
            },
            None => None,
        },
    }
}

/// Nothing running, nothing active, no history and no complaint.
pub open spec fn stopped_view(s: EngineStateView) -> EngineStateView {
    EngineStateView {
        version: s.version,
        pid: None,
        active: None,
        restarts: Seq::empty(),
        last_error: None,
    }
}

pub open spec fn reverted_message() -> Seq<char> {
    "the trial run was not confirmed, so it was reverted"@
}

pub open spec fn revert_failed_message(why: Seq<char>) -> Seq<char> {
    "reverting the unconfirmed trial run failed: "@ + why
}

pub open spec fn exited_message(exit: Seq<char>) -> Seq<char> {
    "engine exited: "@ + exit
}

pub open spec fn gave_up_message(restarts: usize, window_ms: u64, exit: Seq<char>) -> Seq<char> {
    "engine exited "@ + decimal(restarts as nat) + " times in "@ + decimal((window_ms / 1000) as nat)
        + "s and was left down; last exit: "@ + exit
}

/// The state once the trial run has been kept.
pub open spec fn confirmed_view(s: EngineStateView) -> EngineStateView {
    EngineStateView {
        active: match s.active {
            Some(a) => Some(ActiveView { ephemeral: false, revert_at: None, ..a }),
            None => None,
        },
        ..s
    }
}

pub open spec fn nothing_to_keep_message() -> Seq<char> {
    "nothing is running, so there is nothing to keep"@
}

pub open spec fn ephemeral_active(s: EngineStateView) -> bool {
    s.active is Some && s.active->0.ephemeral
}

/// What the supervisor is asked when the engine dies: nothing, for an ephemeral run.
pub open spec fn exit_decision(s: EngineStateView, now: u64) -> Option<Decision> {
    if ephemeral_active(s) {
        None
    } else {
        Some(decide(s.restarts, now))
    }
}

/// The state after the engine was found dead with `exit` as its exit status.
pub open spec fn after_engine_exit(s: EngineStateView, now: u64, exit: Seq<char>) -> EngineStateView {
    if ephemeral_active(s) {
        EngineStateView {
            version: s.version,
            pid: None,
            active: None,
            restarts: s.restarts,
            last_error: Some(exited_message(exit)),
        }
    } else {
        match decide(s.restarts, now) {
            Decision::RestartAfter(delay) => EngineStateView {
                version: s.version,
                pid: None,
                active: match s.active {
                    Some(a) => Some(
                        ActiveView {
                            config: a.config,
                            ephemeral: a.ephemeral,
                            started_at: a.started_at,
                            restart_at: Some((now + delay) as u64),
                            revert_at: a.revert_at,
                        },
                    ),
                    None => None,
                },
                restarts: after_exit(s.restarts, now),
                last_error: Some(exited_message(exit)),
            },
            Decision::GiveUp { restarts, window } => EngineStateView {
                version: s.version,
                pid: None,
                active: None,
                restarts: after_exit(s.restarts, now),
                last_error: Some(gave_up_message(restarts, window, exit)),
            },
        }
    }
}

/// The state once the engine has been spawned for `config`.
pub open spec fn spawned_view(
    s: EngineStateView,
    config: ConfigView,
    ephemeral: bool,
    pid: u32,
    started_at: Option<u64>,
    now: u64,
    revert_after_ms: u64,
) -> EngineStateView {
    EngineStateView {
        version: s.version,
        pid: Some(pid),
        active: Some(
            ActiveView {
                config,
                ephemeral,
                started_at,
                restart_at: None,
                revert_at: if ephemeral {
                    Some((now + revert_after_ms) as u64)
                } else {
                    None
                },
            },
        ),
        restarts: s.restarts,
        last_error: None,
    }
}

/// How long a trial run lasts when nothing overrides it: long enough to open a browser and look
/// at a site, short enough that walking away from a broken network fixes it.
pub open spec fn default_revert_seconds() -> u64 {
    120
}

pub open spec fn revert_seconds(setting: Option<Seq<char>>) -> u64 {
    match setting {
        Some(v) => match parse_u64(v) {
            Some(n) => n,
            None => default_revert_seconds(),
        },
        None => default_revert_seconds(),
    }
}

/// The first line of what the engine printed for `--version`, trimmed, when there is one.
pub open spec fn version_of(stdout: Seq<char>) -> Option<Seq<char>> {
    let ls = lines(stdout);
    if ls.len() > 0 && trim(ls[0]).len() > 0 {
        Some(trim(ls[0]))
    } else {
        None
    }
}

// ---------------------------------------------------------------------------------------------
// Implementation
// ---------------------------------------------------------------------------------------------

impl Active {
    fn with_restart_at(&mut self, at: Option<u64>)
        ensures
            final(self)@ == (ActiveView { restart_at: at, ..old(self)@ }),
    {
        self.restart_at = at;
    }
}

impl EngineState {
    /// A daemon that has found its engine binary, reporting `version`, with nothing running.
    pub fn new(version: Option<String>) -> (r: Self)
        ensures
            r@ == (EngineStateView {
                version: opt_view(version),
                pid: None,
                active: None,
                restarts: Seq::empty(),
                last_error: None,
            }),
    {
        EngineState {
            version,
            pid: None,
            active: None,
            supervisor: Supervisor::new(),
            last_error: None,
        }
    }

    /// The config that is active, running or waiting to be restarted.
    pub fn active_config(&self) -> (r: Option<&Config>)
        ensures
            match r {
                Some(c) => self@.active is Some && c@ == self@.active->0.config,
                None => self@.active is None,
            },
    {
        match &self.active {
            Some(a) => Some(&a.config),
            None => None,
        }
    }

    pub fn last_error(&self) -> (r: Option<&str>)
        ensures
            match r {
                Some(m) => self@.last_error == Some(m@),
                None => self@.last_error is None,
            },
    {
        match &self.last_error {
            Some(m) => Some(m.as_str()),
            None => None,
        }
    }

    pub fn status(&self, now: u64) -> (r: EngineStatus)
        ensures
            r@ == status_of(self@, now),
    {
        let (active_config, ephemeral, started_at, revert_in_seconds) = match &self.active {
            Some(a) => {
                let left = match a.revert_at {
                    Some(at) => Some(
                        if at > now {
                            (at - now) / 1000
                        } else {
                            0
                        },
                    ),
                    None => None,
                };
                (Some(copy_str(a.config.name.as_str())), a.ephemeral, a.started_at, left)
            },
            None => (None, false, None, None),
        };
        let engine_version = match &self.version {
            Some(v) => Some(copy_str(v.as_str())),
            None => None,
        };
        let last_error = match &self.last_error {
            Some(m) => Some(copy_str(m.as_str())),
            None => None,
        };
        EngineStatus {
            running: self.pid.is_some(),
            active_config,
            ephemeral,
            pid: self.pid,
            started_at,
            engine_version,
            last_error,
            revert_in_seconds,
        }
    }

    /// Which step supervision takes at `now`. Called on a timer rather than from a `waitpid`
    /// thread, because the engine is a single child that restarts at most a few times a minute.
    pub fn next_step(&self, now: u64) -> (r: Step)
        ensures
            r == next_step(self@, now),
    {
        match &self.active {
            Some(a) => {
                if let Some(at) = a.revert_at {
                    if now >= at {
                        return Step::Revert;
                    }
                }
                if let Some(at) = a.restart_at {
                    return if now >= at {
                        Step::Restart
                    } else {
                        Step::Idle
                    };
                }
            },
            None => {},
        }
        if self.pid.is_some() {
            Step::Watch
        } else {
            Step::Idle
        }
    }

    /// Whether a deliberate start of `config` may go ahead, and what it involves.
    pub fn start_plan(&self, config: &Config, ephemeral: bool) -> (r: Result<StartPlan, ConfigError>)
        ensures
            match r {
                Ok(plan) => config_error(config@) is None && plan == (StartPlan {
                    stop_first: self@.pid is Some,
                    persist: !ephemeral,
                }),
                Err(e) => config_error(config@) == Some(e@),
            },
    {
        match config.validate() {
            Ok(()) => Ok(StartPlan { stop_first: self.pid.is_some(), persist: !ephemeral }),
            Err(e) => Err(e),
        }
    }

    /// Forgets the restart history. A deliberate start is a fresh slate: the user may well be
    /// fixing what crashed.
    pub fn fresh_slate(&mut self)
        ensures
            final(self)@ == (EngineStateView { restarts: Seq::empty(), ..old(self)@ }),
    {
        self.supervisor.reset();
    }

    /// The engine was spawned for `config`, as process `pid`. A trial run gets its revert
    /// deadline `revert_after_ms` from `now`.
    pub fn spawned(
        &mut self,
        config: Config,
        ephemeral: bool,
        pid: u32,
        started_at: Option<u64>,
        now: u64,
        revert_after_ms: u64,
    )
        requires
            ephemeral ==> now + revert_after_ms <= u64::MAX,
        ensures
            final(self)@ == spawned_view(
                old(self)@,
                config@,
                ephemeral,
                pid,
                started_at,
                now,
                revert_after_ms,
            ),
    {
        let revert_at = if ephemeral {
            Some(now + revert_after_ms)
        } else {
            None
        };
        self.pid = Some(pid);
        self.last_error = None;
        self.active = Some(
            Active { config, ephemeral, started_at, restart_at: None, revert_at },
        );
    }

    /// The engine was stopped on purpose: rules removed, process killed. Stopping is a decision
    /// to stay stopped, so the history and the last complaint go too.
    pub fn stopped(&mut self)
        ensures
            final(self)@ == stopped_view(old(self)@),
    {
        self.pid = None;
        self.active = None;
        self.last_error = None;
        self.supervisor.reset();
    }

    /// Records why the engine is down after a revert, whose stop ended in `outcome`. Set after
    /// the stop, which clears it: this is the reason the engine is down and the user needs to see
    /// it, having quite possibly been unable to reach anything.
    pub fn note_revert(&mut self, outcome: Result<(), String>)
        ensures
            final(self)@ == (EngineStateView {
                last_error: Some(
                    match outcome {
                        Ok(()) => reverted_message(),
                        Err(why) => revert_failed_message(why@),
                    },
                ),
                ..old(self)@
            }),
    {
        let message = match outcome {
            Ok(()) => "the trial run was not confirmed, so it was reverted".to_owned(),
            Err(why) => {
                let mut m = "reverting the unconfirmed trial run failed: ".to_owned();
                push_str(&mut m, why.as_str());
                m
            },
        };
        self.last_error = Some(message);
    }

    /// The engine was found dead with exit status `exit`, and its rules have been torn down. An
    /// ephemeral run is an experiment: if it dies, it has answered the question. Anything else
    /// goes to the supervisor, whose decision is returned.
    pub fn exited(&mut self, now: u64, exit: &str) -> (r: Option<Decision>)
        requires
            now <= u64::MAX - 15_000,
        ensures
            r == exit_decision(old(self)@, now),
            final(self)@ == after_engine_exit(old(self)@, now, exit@),
    {
        self.pid = None;
        let mut exited = "engine exited: ".to_owned();
        push_str(&mut exited, exit);
        self.last_error = Some(exited);
        let ephemeral = match &self.active {
            Some(a) => a.ephemeral,
            None => false,
        };
        if ephemeral {
            self.active = None;
            return None;
        }
        let decision = self.supervisor.on_exit(now);
        match decision {
            Decision::RestartAfter(delay) => {
                assert(delay <= 15_000);
                match &mut self.active {
                    Some(a) => a.with_restart_at(Some(now + delay)),
                    None => {},
                }
                Some(Decision::RestartAfter(delay))
            },
            Decision::GiveUp { restarts, window } => {
                let mut m = "engine exited ".to_owned();
                push_decimal(&mut m, restarts as u64);
                push_str(&mut m, " times in ");
                push_decimal(&mut m, window / 1000);
                push_str(&mut m, "s and was left down; last exit: ");
                push_str(&mut m, exit);
                self.last_error = Some(m);
                self.active = None;
                Some(Decision::GiveUp { restarts, window })
            },
        }
    }

    /// Takes the pending restart off the clock. Says whether there is a config to bring back.
    pub fn begin_restart(&mut self) -> (r: bool)
        ensures
            r == (old(self)@.active is Some),
            final(self)@ == (EngineStateView {
                active: match old(self)@.active {
                    Some(a) => Some(ActiveView { restart_at: None, ..a }),
                    None => None,
                },
                ..old(self)@
            }),
    {
        match &mut self.active {
            Some(a) => {
                a.with_restart_at(None);
                true
            },
            None => false,
        }
    }

    /// A restart could not spawn the engine, for the reason `message`.
    pub fn restart_failed(&mut self, message: String)
        ensures
            final(self)@ == (EngineStateView { last_error: Some(message@), ..old(self)@ }),
    {
        self.last_error = Some(message);
    }

    /// Keeps a trial run: cancels the revert, so the caller can persist the config and it comes
    /// back at boot.
    pub fn confirm(&mut self) -> (r: Result<(), String>)
        ensures
            match r {
                Ok(()) => old(self)@.active is Some && final(self)@ == confirmed_view(old(self)@),
                Err(m) => old(self)@.active is None && m@ == nothing_to_keep_message()
                    && final(self)@ == old(self)@,
            },
    {
        match &mut self.active {
            Some(a) => {
                a.ephemeral = false;
                a.revert_at = None;
                Ok(())
            },
            None => Err("nothing is running, so there is nothing to keep".to_owned()),
        }
    }

    /// The daemon is going down: the engine is killed and its rules removed. Unlike a stop, the
    /// saved config stays, since this is the machine going down and not a decision to stay
    /// stopped.
    pub fn shut_down(&mut self)
        ensures
            final(self)@ == (EngineStateView { pid: None, active: None, ..old(self)@ }),
    {
        self.pid = None;
        self.active = None;
    }
}

/// Seconds a trial run lasts: `setting` when it is a number (the override that lets the daemon
/// be exercised without waiting), else the default.
pub fn revert_after_secs(setting: Option<&str>) -> (r: u64)
    ensures
        r == revert_seconds(
            match setting {
                Some(v) => Some(v@),
                None => None,
            },
        ),
{
    match setting {
        Some(v) => match parse_u64_str(v) {
            Some(n) => n,
            None => 120,
        },
        None => 120,
    }
}

/// The engine's version, from what it printed for `--version`.
pub fn version_line(stdout: &str) -> (r: Option<String>)
    ensures
        opt_view(r) == version_of(stdout@),
{
    let ls = lines_of(stdout);
    if ls.len() == 0 {
        return None;
    }
    let first = trim_str(ls[0].as_str());
    if first.as_str().is_empty() {
        None
    } else {
        Some(first)
    }
}

// ---------------------------------------------------------------------------------------------
// Laws
// ---------------------------------------------------------------------------------------------

/// An ephemeral run is an experiment: when it dies it is not restarted, the supervisor is not
/// consulted, and nothing is left active.
pub proof fn an_ephemeral_run_is_never_restarted(s: EngineStateView, now: u64, exit: Seq<char>)
    requires
        ephemeral_active(s),
    ensures
        exit_decision(s, now) is None,
        after_engine_exit(s, now, exit).active is None,
        after_engine_exit(s, now, exit).restarts == s.restarts,
        forall|t: u64| next_step(after_engine_exit(s, now, exit), t) == Step::Idle,
{
}

/// A run that was kept and dies while the window still allows it is brought back: the same
/// config stays active, nothing happens until its backoff has passed, and then it is restarted.
pub proof fn a_crashed_run_comes_back_after_the_backoff(
    s: EngineStateView,
    now: u64,
    exit: Seq<char>,
    t: u64,
)
    requires
        s.active is Some,
        !s.active->0.ephemeral,
        s.active->0.revert_at is None,
        keep_recent(s.restarts, now).len() < MAX_RESTARTS,
        now <= u64::MAX - 15_000,
    ensures
        ({
            let after = after_engine_exit(s, now, exit);
            let delay = backoff_ms(keep_recent(s.restarts, now).len());
            &&& exit_decision(s, now) == Some(Decision::RestartAfter(delay))
            &&& after.active is Some
            &&& after.active->0.config == s.active->0.config
            &&& after.pid is None
            &&& after.last_error == Some(exited_message(exit))
            &&& next_step(after, t) == if t >= now + delay {
                Step::Restart
            } else {
                Step::Idle
            }
        }),
{
}

/// An engine that keeps dying is left down once the window's allowance is spent, and the reason
/// names how often and in what window it died.
pub proof fn a_crash_loop_is_left_down(s: EngineStateView, now: u64, exit: Seq<char>, t: u64)
    requires
        !ephemeral_active(s),
        keep_recent(s.restarts, now).len() >= MAX_RESTARTS,
    ensures
        ({
            let after = after_engine_exit(s, now, exit);
            let n = keep_recent(s.restarts, now).len();
            &&& exit_decision(s, now) == Some(
                Decision::GiveUp { restarts: n as usize, window: WINDOW_MS },
            )
            &&& after.active is None
            &&& after.last_error == Some(gave_up_message(n as usize, WINDOW_MS, exit))
            &&& next_step(after, t) == Step::Idle
        }),
{
}

/// Stopping is a decision to stay stopped: nothing is left to supervise, the restart history is
/// gone, and the status reads as idle.
pub proof fn stopping_is_a_fresh_slate(s: EngineStateView, t: u64)
    ensures
        next_step(stopped_view(s), t) == Step::Idle,
        stopped_view(s).restarts.len() == 0,
        status_of(stopped_view(s), t) == (EngineStatusView {
            engine_version: s.version,
            ..idle_status()
        }),
{
}

/// A trial run is reverted exactly when its deadline has passed, and until then the status
/// counts the seconds down.
pub proof fn a_trial_run_reverts_when_its_time_is_up(
    s: EngineStateView,
    config: ConfigView,
    pid: u32,
    started_at: Option<u64>,
    now: u64,
    revert_after_ms: u64,
    t: u64,
)
    requires
        now + revert_after_ms <= u64::MAX,
    ensures
        ({
            let run = spawned_view(s, config, true, pid, started_at, now, revert_after_ms);
            &&& (next_step(run, t) == Step::Revert) == (t >= now + revert_after_ms)
            &&& t < now + revert_after_ms ==> next_step(run, t) == Step::Watch
            &&& status_of(run, t).revert_in_seconds == Some(
                seconds_until((now + revert_after_ms) as u64, t),
            )
            &&& status_of(run, t).ephemeral
        }),
{
}

/// A run that is not a trial is never reverted.
pub proof fn a_kept_run_is_never_reverted(
    s: EngineStateView,
    config: ConfigView,
    pid: u32,
    started_at: Option<u64>,
    now: u64,
    revert_after_ms: u64,
    t: u64,
)
    ensures
        next_step(spawned_view(s, config, false, pid, started_at, now, revert_after_ms), t)
            == Step::Watch,
{
}

/// Keeping a trial run cancels its revert for good and makes it an ordinary run, leaving the
/// config as it was.
pub proof fn confirming_cancels_the_revert(s: EngineStateView, t: u64)
    requires
        s.active is Some,
    ensures
        next_step(confirmed_view(s), t) != Step::Revert,
        !status_of(confirmed_view(s), t).ephemeral,
        status_of(confirmed_view(s), t).revert_in_seconds is None,
        confirmed_view(s).active->0.config == s.active->0.config,
{
}

// ---------------------------------------------------------------------------------------------
// What is missing
// ---------------------------------------------------------------------------------------------

pub open spec fn not_found_message(binary: Seq<char>) -> Seq<char> {
    binary + " not found. Install zapret2 (https://github.com/bol-van/zapret2) or place the binary in /opt/zapret2"@
}

/// Why the engine cannot run when its binary `binary` is nowhere to be found. The message names
/// the binary, so a user can tell which one is missing.
pub fn engine_not_found(binary: &str) -> (r: String)
    ensures
        r@ == not_found_message(binary@),
{
    let mut m = copy_str(binary);
    push_str(
        &mut m,
        " not found. Install zapret2 (https://github.com/bol-van/zapret2) or place the binary in /opt/zapret2",
    );
    m
}

pub open spec fn lua_missing_message() -> Seq<char> {
    "zapret2's Lua scripts were not found. They ship with the engine — look for zapret-lib.lua under /opt/zapret2/lua — and without them no desync action exists"@
}

/// Why the engine cannot run without zapret2's Lua library.
pub fn lua_missing() -> (r: String)
    ensures
        r@ == lua_missing_message(),
{
    "zapret2's Lua scripts were not found. They ship with the engine — look for zapret-lib.lua under /opt/zapret2/lua — and without them no desync action exists".to_owned()
}

// ---------------------------------------------------------------------------------------------
// Left-behind engines
// ---------------------------------------------------------------------------------------------

/// `s[i..j]` is one of the pieces `s` splits into at its NUL bytes.
pub open spec fn is_piece(s: Seq<u8>, i: int, j: int) -> bool {
    &&& 0 <= i <= j <= s.len()
    &&& (i == 0 || s[i - 1] == 0)
    &&& (j == s.len() || s[j] == 0)
    &&& forall|k: int| i <= k < j ==> s[k] != 0
}

/// A process command line, as `/proc/<pid>/cmdline` holds it (arguments ended by NUL bytes),
/// names `arg` as one of its arguments.
pub open spec fn has_argument(cmdline: Seq<u8>, arg: Seq<u8>) -> bool {
    exists|i: int, j: int| is_piece(cmdline, i, j) && cmdline.subrange(i, j) == arg
}

fn same_bytes(a: &[u8], start: usize, end: usize, b: &[u8]) -> (r: bool)
    requires
        start <= end <= a@.len(),
    ensures
        r == (a@.subrange(start as int, end as int) == b@),
{
    if end - start != b.len() {
        return false;
    }
    let mut k: usize = 0;
    while k < b.len()
        invariant
            start <= end <= a@.len(),
            end - start == b@.len(),
            k <= b@.len(),
            forall|m: int| 0 <= m < k ==> a@[start + m] == b@[m],
        decreases b@.len() - k,
    {
        if a[start + k] != b[k] {
            return false;
        }
        k = k + 1;
    }
    assert(a@.subrange(start as int, end as int) =~= b@);
    true
}

/// Whether a process whose command line is `cmdline` was given `arg`: how an engine left behind
/// by a daemon that died is recognised, by the parameter file it was started with.
pub fn runs_with_argument(cmdline: &[u8], arg: &[u8]) -> (r: bool)
    ensures
        r == has_argument(cmdline@, arg@),
{
    let n = cmdline.len();
    let mut start: usize = 0;
    let mut p: usize = 0;
    while p < n
        invariant
            n == cmdline@.len(),
            start <= p <= n,
            start == 0 || cmdline@[start - 1] == 0,
            forall|k: int| start <= k < p ==> cmdline@[k] != 0,
            forall|i: int, j: int|
                is_piece(cmdline@, i, j) && i < start ==> cmdline@.subrange(i, j) != arg@,
        decreases n - p,
    {
        if cmdline[p] == 0 {
            assert(is_piece(cmdline@, start as int, p as int));
            if same_bytes(cmdline, start, p, arg) {
                return true;
            }
            proof {
                assert forall|i: int, j: int|
                    is_piece(cmdline@, i, j) && i < p + 1 implies cmdline@.subrange(i, j)
                    != arg@ by {
                    if i >= start {
                        if i > start {
                            assert(cmdline@[i - 1] != 0);
                        }
                        if j < p {
                            assert(cmdline@[j] == 0);
                        }
                        if j > p {
                            assert(cmdline@[p as int] == 0);
                        }
                        assert(i == start && j == p);
                    }
                }
            }
            start = p + 1;
        }
        p = p + 1;
    }
    assert(is_piece(cmdline@, start as int, n as int));
    if same_bytes(cmdline, start, n, arg) {
        return true;
    }
    assert forall|i: int, j: int| is_piece(cmdline@, i, j) implies cmdline@.subrange(i, j)
        != arg@ by {
        if i >= start {
            if i > start {
                assert(cmdline@[i - 1] != 0);
            }
            if j < n {
                assert(cmdline@[j] == 0);
            }
            assert(i == start && j == n);
        }
    }
    false
}

// ---------------------------------------------------------------------------------------------
// Files the engine runs from
// ---------------------------------------------------------------------------------------------

/// The NFQUEUE number the engine reads and the rules feed.
pub const QUEUE_NUM: u16 = 200;

/// The options a run renders with: the runtime directory holds the pidfile, the log directory the
/// engine's debug log, and `validate` asks for a check run instead of a real one.
pub open spec fn run_options_view(
    platform: Platform,
    runtime_dir: Seq<char>,
    log_dir: Seq<char>,
    lua_init: Seq<Seq<char>>,
    validate: bool,
    windows: bool,
) -> EngineOptionsView {
    EngineOptionsView {
        platform,
        queue_num: QUEUE_NUM,
        pidfile: joined(runtime_dir, "engine.pid"@, windows),
        debug_log: Some(log_dir + "/engine.log"@),
        lua_init,
        validate,
    }
}

pub fn run_options(
    platform: Platform,
    runtime_dir: &str,
    log_dir: &str,
    lua_init: Vec<String>,
    validate: bool,
    windows: bool,
) -> (r: EngineOptions)
    ensures
        r@ == run_options_view(platform, runtime_dir@, log_dir@, string_views(lua_init@), validate, windows),
{
    let mut debug_log = copy_str(log_dir);
    push_str(&mut debug_log, "/engine.log");
    EngineOptions {
        platform,
        queue_num: QUEUE_NUM,
        pidfile: join_path(runtime_dir, "engine.pid", windows),
        debug_log: Some(debug_log),
        lua_init,
        validate,
    }
}

/// The parameter file a run reads, in the runtime directory.
pub fn parameter_file_path(runtime_dir: &str, windows: bool) -> (r: String)
    ensures
        r@ == joined(runtime_dir@, "nfqws2.conf"@, windows),
{
    join_path(runtime_dir, "nfqws2.conf", windows)
}

/// The parameter file the check run reads, beside the real one.
pub fn check_file_path(runtime_dir: &str, windows: bool) -> (r: String)
    ensures
        r@ == joined(runtime_dir@, "nfqws2-check.conf"@, windows),
{
    join_path(runtime_dir, "nfqws2-check.conf", windows)
}

/// What a left-behind engine's command line holds: its parameter file, given with `@`.
pub fn parameter_argument(runtime_dir: &str, windows: bool) -> (r: String)
    ensures
        r@ == "@"@ + joined(runtime_dir@, "nfqws2.conf"@, windows),
{
    let mut r = "@".to_owned();
    push_str(&mut r, parameter_file_path(runtime_dir, windows).as_str());
    r
}


// ---------------------------------------------------------------------------------------------
// The order of the way up and the way down
// ---------------------------------------------------------------------------------------------

/// One piece of I/O in bringing the engine up or taking it down.
#[derive(Debug, Clone, Copy, PartialEq, Eq, Structural)]
pub enum EngineOp {
    /// Write the config rendered for a check run.
    WriteCheckFile,
    /// Run the engine on that file with `--intercept=0`; a refusal ends the way up here.
    CheckConfig,
    /// Write the config rendered for the real run.
    WriteParameterFile,
    /// Install the firewall rules that send traffic to the engine's queue.
    InstallRules,
    /// Start the engine on the parameter file.
    StartEngine,
    /// Remove the firewall rules.
    RemoveRules,
    /// Kill the engine and wait for it.
    StopEngine,
}

/// The way up: check the config, write it, install the rules, then start the engine.
pub open spec fn start_order() -> Seq<EngineOp> {
    seq![
        EngineOp::WriteCheckFile,
        EngineOp::CheckConfig,
        EngineOp::WriteParameterFile,
        EngineOp::InstallRules,
        EngineOp::StartEngine,
    ]
}

/// The way down: the rules first, then the engine.
pub open spec fn stop_order() -> Seq<EngineOp> {
    seq![EngineOp::RemoveRules, EngineOp::StopEngine]
}

/// The steps of bringing the engine up, in the order the caller performs them, stopping at the
/// first that fails.
pub fn start_steps() -> (r: Vec<EngineOp>)
    ensures
        r@ == start_order(),
{
    let r = vec![
        EngineOp::WriteCheckFile,
        EngineOp::CheckConfig,
        EngineOp::WriteParameterFile,
        EngineOp::InstallRules,
        EngineOp::StartEngine,
    ];
    assert(r@ =~= start_order());
    r
}

/// The steps of taking the engine down, in the order the caller performs them, each whatever
/// the one before it did.
pub fn stop_steps() -> (r: Vec<EngineOp>)
    ensures
        r@ == stop_order(),
{
    let r = vec![EngineOp::RemoveRules, EngineOp::StopEngine];
    assert(r@ =~= stop_order());
    r
}

/// Rules go in last and come out first: on the way up they are installed only after the engine
/// has accepted the config and its parameter file is written, and immediately before it starts;
/// on the way down they are the first thing removed. Rules pointing at a queue nothing reads
/// never stand while the engine is known to refuse the config.
pub proof fn rules_go_in_last_and_come_out_first()
    ensures
        forall|i: int, j: int|
            0 <= i < j < start_order().len() && #[trigger] start_order()[j] == EngineOp::InstallRules
                ==> #[trigger] start_order()[i] != EngineOp::StartEngine,
        forall|i: int|
            0 <= i < start_order().len() && (#[trigger] start_order()[i] == EngineOp::CheckConfig
                || start_order()[i] == EngineOp::WriteParameterFile) ==> exists|j: int|
                i < j < start_order().len() && #[trigger] start_order()[j] == EngineOp::InstallRules,
        start_order()[start_order().len() - 2] == EngineOp::InstallRules,
        start_order().last() == EngineOp::StartEngine,
        stop_order()[0] == EngineOp::RemoveRules,
{
    assert(start_order()[3] == EngineOp::InstallRules);
}

} // verus!
