//! GUI ↔ daemon wire protocol: newline-delimited JSON over a local socket.
//!
//! Deliberately request/response only. Logs are *not* streamed over this socket — the daemon
//! writes files under the log directory and the GUI tails them directly, which keeps the
//! privileged surface to "start, stop, confirm, report status".
//!
//! The message types live here; turning them into JSON and back is the transport's business.

use crate::config::{opt_view, Config, ConfigView};
use vstd::prelude::*;

verus! {

/// Every request carries this; the daemon refuses mismatched majors rather than guessing.
pub const PROTOCOL_VERSION: u32 = 1;

#[derive(Debug, Clone, PartialEq)]
pub enum Request {
    /// Liveness check. Also how the GUI learns whether the daemon is installed and running.
    Ping { protocol: u32 },
    /// Current engine state.
    Status,
    /// Apply a config and start the engine. `ephemeral` runs it without persisting it as the
    /// active config, so a failed experiment is undone by a restart ("try it" mode).
    Start { config: Box<Config>, ephemeral: bool },
    /// Stop the engine, leaving the firewall in its pre-start state.
    Stop,
    /// Keep the trial run that is active: cancel its revert and persist it.
    Confirm,
}

#[derive(Debug, Clone, PartialEq)]
pub enum Response {
    Pong { daemon_version: String, protocol: u32 },
    Status(EngineStatus),
    /// The operation went through.
    Done,
    Error { code: ErrorCode, message: String },
}

#[derive(Debug, Clone, Copy, PartialEq, Eq, Structural)]
pub enum ErrorCode {
    /// Daemon and GUI disagree on [`PROTOCOL_VERSION`]; one of them needs updating.
    ProtocolMismatch,
    /// Malformed request or invalid config.
    BadRequest,
    /// The engine itself failed (missing binary, firewall rejected the rules, …).
    EngineFailed,
}

#[derive(Debug, Clone, PartialEq, Eq)]
pub struct EngineStatus {
    pub running: bool,
    /// Name of the config currently applied, if any.
    pub active_config: Option<String>,
    /// True when the active config was started with `ephemeral` and will not survive a restart.
    pub ephemeral: bool,
    pub pid: Option<u32>,
    /// Unix epoch seconds the engine started at.
    pub started_at: Option<u64>,
    /// Version reported by the zapret2 engine binary, when it could be determined.
    pub engine_version: Option<String>,
    /// Why the engine is not running, when it stopped by itself. Survives the process it describes
    /// so the GUI can explain a crash the user was not watching for.
    pub last_error: Option<String>,
    /// Whole seconds left before an unconfirmed trial run is reverted.
    pub revert_in_seconds: Option<u64>,
}

// ---------------------------------------------------------------------------------------------
// Views
// ---------------------------------------------------------------------------------------------

pub struct EngineStatusView {
    pub running: bool,
    pub active_config: Option<Seq<char>>,
    pub ephemeral: bool,
    pub pid: Option<u32>,
    pub started_at: Option<u64>,
    pub engine_version: Option<Seq<char>>,
    pub last_error: Option<Seq<char>>,
    pub revert_in_seconds: Option<u64>,
}

pub enum RequestView {
    Ping { protocol: u32 },
    Status,
    Start { config: ConfigView, ephemeral: bool },
    Stop,
    Confirm,
}

pub enum ResponseView {
    Pong { daemon_version: Seq<char>, protocol: u32 },
    Status(EngineStatusView),
    Done,
    Error { code: ErrorCode, message: Seq<char> },
}

impl View for EngineStatus {
    type V = EngineStatusView;

    open spec fn view(&self) -> EngineStatusView {
        EngineStatusView {
            running: self.running,
            active_config: opt_view(self.active_config),
            ephemeral: self.ephemeral,
            pid: self.pid,
            started_at: self.started_at,
            engine_version: opt_view(self.engine_version),
            last_error: opt_view(self.last_error),
            revert_in_seconds: self.revert_in_seconds,
        }
    }
}

impl View for Request {
    type V = RequestView;

    open spec fn view(&self) -> RequestView {
        match self {
            Request::Ping { protocol } => RequestView::Ping { protocol: *protocol },
            Request::Status => RequestView::Status,
            Request::Start { config, ephemeral } => RequestView::Start {
                config: config@,
                ephemeral: *ephemeral,
            },
            Request::Stop => RequestView::Stop,
            Request::Confirm => RequestView::Confirm,
        }
    }
}

impl View for Response {
    type V = ResponseView;

    open spec fn view(&self) -> ResponseView {
        match self {
            Response::Pong { daemon_version, protocol } => ResponseView::Pong {
                daemon_version: daemon_version@,
                protocol: *protocol,
            },
            Response::Status(s) => ResponseView::Status(s@),
            Response::Done => ResponseView::Done,
            Response::Error { code, message } => ResponseView::Error {
                code: *code,
                message: message@,
            },
        }
    }
}

/// The status of a daemon with nothing running and nothing to report.
pub open spec fn idle_status() -> EngineStatusView {
    EngineStatusView {
        running: false,
        active_config: None,
        ephemeral: false,
        pid: None,
        started_at: None,
        engine_version: None,
        last_error: None,
        revert_in_seconds: None,
    }
}

impl Default for EngineStatus {
    fn default() -> (r: Self)
        ensures
            r@ == idle_status(),
    {
        EngineStatus {
            running: false,
            active_config: None,
            ephemeral: false,
            pid: None,
            started_at: None,
            engine_version: None,
            last_error: None,
            revert_in_seconds: None,
        }
    }
}

} // verus!
