//! The privileged daemon's answers. It exposes exactly five operations over a local socket; the
//! GUI stays unprivileged and can do nothing to the network stack except through them.
//!
//! [`handle`] answers what can be answered from the engine's state and says which operation to
//! perform otherwise; [`engine_failed`] words the failure of one.

use crate::config::{config_error, error_message, Config, ConfigView};
use crate::engine::{status_of, EngineState, EngineStateView};
use crate::protocol::{
    idle_status, EngineStatus, EngineStatusView, ErrorCode, Request, RequestView, Response,
    ResponseView, PROTOCOL_VERSION,
};
use crate::text::{
    contains_seq, contains_str, copy_str, decimal, parse_u32, parse_u32_str, push_decimal, push_str,
    str_eq, views,
};
use vstd::prelude::*;
use vstd::string::*;

verus! {

/// What a request comes to: an answer, or an operation on the engine for the caller to perform.
pub enum Handled {
    Reply(Response),
    Start { config: Box<Config>, ephemeral: bool },
    Stop,
    Confirm,
}

pub enum HandledView {
    Reply(ResponseView),
    Start { config: ConfigView, ephemeral: bool },
    Stop,
    Confirm,
}

impl View for Handled {
    type V = HandledView;

    open spec fn view(&self) -> HandledView {
        match self {
            Handled::Reply(r) => HandledView::Reply(r@),
            Handled::Start { config, ephemeral } => HandledView::Start {
                config: config@,
                ephemeral: *ephemeral,
            },
            Handled::Stop => HandledView::Stop,
            Handled::Confirm => HandledView::Confirm,
        }
    }
}

pub open spec fn mismatch_message(client: u32) -> Seq<char> {
    "daemon speaks protocol v"@ + decimal(PROTOCOL_VERSION as nat) + ", client sent v"@ + decimal(
        client as nat,
    )
}

/// The answer to `request`, given the engine (or why there is none), this daemon's version and
/// the time.
pub open spec fn answer(
    request: RequestView,
    engine: Result<EngineStateView, Seq<char>>,
    daemon_version: Seq<char>,
    now: u64,
) -> HandledView {
    match request {
        RequestView::Ping { protocol } => if protocol != PROTOCOL_VERSION {
            HandledView::Reply(
                ResponseView::Error {
                    code: ErrorCode::ProtocolMismatch,
                    message: mismatch_message(protocol),
                },
            )
        } else {
            HandledView::Reply(ResponseView::Pong { daemon_version, protocol: PROTOCOL_VERSION })
        },
        RequestView::Status => match engine {
            Ok(s) => HandledView::Reply(ResponseView::Status(status_of(s, now))),
            // Without an engine nothing can be running, and the reason belongs in the status
            // rather than in an error the UI would render as a failed request.
            Err(why) => HandledView::Reply(
                ResponseView::Status(EngineStatusView { last_error: Some(why), ..idle_status() }),
            ),
        },
        RequestView::Start { config, ephemeral } => match config_error(config) {
            Some(e) => HandledView::Reply(
                ResponseView::Error { code: ErrorCode::BadRequest, message: error_message(e) },
            ),
            None => match engine {
                Ok(_) => HandledView::Start { config, ephemeral },
                Err(why) => HandledView::Reply(
                    ResponseView::Error { code: ErrorCode::EngineFailed, message: why },
                ),
            },
        },
        RequestView::Stop => match engine {
            Ok(_) => HandledView::Stop,
            Err(why) => HandledView::Reply(
                ResponseView::Error { code: ErrorCode::EngineFailed, message: why },
            ),
        },
        RequestView::Confirm => match engine {
            Ok(_) => HandledView::Confirm,
            Err(why) => HandledView::Reply(
                ResponseView::Error { code: ErrorCode::EngineFailed, message: why },
            ),
        },
    }
}

pub open spec fn engine_view(engine: Result<&EngineState, &str>) -> Result<EngineStateView, Seq<char>> {
    match engine {
        Ok(e) => Ok(e@),
        Err(why) => Err(why@),
    }
}

/// Answers `request`. A missing engine is reported per request rather than at startup: the daemon
/// still has to answer `ping` and `status` so the GUI can say what is wrong instead of showing
/// nothing.
pub fn handle(request: Request, engine: Result<&EngineState, &str>, daemon_version: &str, now: u64) -> (r: Handled)
    ensures
        r@ == answer(request@, engine_view(engine), daemon_version@, now),
{
    match request {
        Request::Ping { protocol } => {
            if protocol != PROTOCOL_VERSION {
                let mut m = "daemon speaks protocol v".to_owned();
                push_decimal(&mut m, PROTOCOL_VERSION as u64);
                push_str(&mut m, ", client sent v");
                push_decimal(&mut m, protocol as u64);
                Handled::Reply(Response::Error { code: ErrorCode::ProtocolMismatch, message: m })
            } else {
                Handled::Reply(
                    Response::Pong {
                        daemon_version: copy_str(daemon_version),
                        protocol: PROTOCOL_VERSION,
                    },
                )
            }
        },
        Request::Status => match engine {
            Ok(e) => Handled::Reply(Response::Status(e.status(now))),
            Err(why) => {
                let mut status = EngineStatus::default();
                status.last_error = Some(copy_str(why));
                Handled::Reply(Response::Status(status))
            },
        },
        Request::Start { config, ephemeral } => {
            if let Err(e) = config.validate() {
                return Handled::Reply(
                    Response::Error { code: ErrorCode::BadRequest, message: e.message() },
                );
            }
            match engine {
                Ok(_) => Handled::Start { config, ephemeral },
                Err(why) => Handled::Reply(
                    Response::Error { code: ErrorCode::EngineFailed, message: copy_str(why) },
                ),
            }
        },
        Request::Stop => match engine {
            Ok(_) => Handled::Stop,
            Err(why) => Handled::Reply(
                Response::Error { code: ErrorCode::EngineFailed, message: copy_str(why) },
            ),
        },
        Request::Confirm => match engine {
            Ok(_) => Handled::Confirm,
            Err(why) => Handled::Reply(
                Response::Error { code: ErrorCode::EngineFailed, message: copy_str(why) },
            ),
        },
    }
}

// ---------------------------------------------------------------------------------------------
// Failures
// ---------------------------------------------------------------------------------------------

pub open spec fn denial_hint_text() -> Seq<char> {
    " (running as root, so this was refused by AppArmor, SELinux or the capability bounding set rather than by file permissions — `journalctl -k -g 'apparmor|avc'` names the rule; see packaging/linux/README.md)"@
}

/// Whether `message` reads like a refusal that a root process can only get from a security
/// module or the capability bounding set.
pub open spec fn is_denial(message: Seq<char>) -> bool {
    contains_seq(message, "Operation not permitted"@) || contains_seq(message, "Permission denied"@)
}

/// An LSM denial reaches the daemon as a plain "Operation not permitted" from `nft` or the
/// engine, which reads as nonsense in a process already running as root and sends people looking
/// at file modes. Names the things that can actually refuse it. Only Linux ships such modules, so
/// only there does the hint point anywhere real.
pub fn denial_hint(message: &str, linux: bool) -> (r: Option<&'static str>)
    ensures
        match r {
            Some(h) => linux && is_denial(message@) && h@ == denial_hint_text(),
            None => !(linux && is_denial(message@)),
        },
{
    if !linux {
        return None;
    }
    if contains_str(message, "Operation not permitted") || contains_str(message, "Permission denied") {
        Some(
            " (running as root, so this was refused by AppArmor, SELinux or the capability bounding set rather than by file permissions — `journalctl -k -g 'apparmor|avc'` names the rule; see packaging/linux/README.md)",
        )
    } else {
        None
    }
}

pub open spec fn failure_message(message: Seq<char>, linux: bool) -> Seq<char> {
    if linux && is_denial(message) {
        message + denial_hint_text()
    } else {
        message
    }
}

/// The answer when an operation on the engine failed with `message`: the message, with the
/// denial hint where it applies.
pub fn engine_failed(message: &str, linux: bool) -> (r: Response)
    ensures
        r@ == (ResponseView::Error {
            code: ErrorCode::EngineFailed,
            message: failure_message(message@, linux),
        }),
{
    let mut m = copy_str(message);
    if let Some(hint) = denial_hint(message, linux) {
        push_str(&mut m, hint);
    }
    Response::Error { code: ErrorCode::EngineFailed, message: m }
}

/// The answer once the operation a request came to has been performed.
pub fn outcome(result: Result<(), String>, linux: bool) -> (r: Response)
    ensures
        r@ == match result {
            Ok(()) => ResponseView::Done,
            Err(m) => ResponseView::Error {
                code: ErrorCode::EngineFailed,
                message: failure_message(m@, linux),
            },
        },
{
    match result {
        Ok(()) => Response::Done,
        Err(m) => engine_failed(m.as_str(), linux),
    }
}

// ---------------------------------------------------------------------------------------------
// Command line
// ---------------------------------------------------------------------------------------------

/// The daemon's command line.
pub struct Args {
    /// Group id to hand the socket to, so an unprivileged GUI in that group can talk to the
    /// daemon. Without it the socket stays root-only and the GUI cannot connect.
    pub socket_group_gid: Option<u32>,
    /// `--version` was asked for; nothing after it was read.
    pub show_version: bool,
    /// Arguments that mean nothing here, in order.
    pub ignored: Vec<String>,
}

pub struct ArgsView {
    pub socket_group_gid: Option<u32>,
    pub show_version: bool,
    pub ignored: Seq<Seq<char>>,
}

impl View for Args {
    type V = ArgsView;

    open spec fn view(&self) -> ArgsView {
        ArgsView {
            socket_group_gid: self.socket_group_gid,
            show_version: self.show_version,
            ignored: views(self.ignored@),
        }
    }
}

/// Reading `rest` on top of what `acc` already holds. `--socket-group-gid` takes the next
/// argument, and a value that is missing or not a number leaves no group; `--version` ends the
/// reading.
pub open spec fn read_args(rest: Seq<Seq<char>>, acc: ArgsView) -> ArgsView
    decreases rest.len(),
{
    if rest.len() == 0 {
        acc
    } else if rest[0] == "--socket-group-gid"@ {
        if rest.len() >= 2 {
            read_args(rest.skip(2), ArgsView { socket_group_gid: parse_u32(rest[1]), ..acc })
        } else {
            ArgsView { socket_group_gid: None, ..acc }
        }
    } else if rest[0] == "--version"@ {
        ArgsView { show_version: true, ..acc }
    } else {
        read_args(rest.skip(1), ArgsView { ignored: acc.ignored.push(rest[0]), ..acc })
    }
}

pub open spec fn no_args() -> ArgsView {
    ArgsView { socket_group_gid: None, show_version: false, ignored: Seq::empty() }
}

impl Args {
    pub fn parse(args: Vec<String>) -> (r: Args)
        ensures
            r@ == read_args(views(args@), no_args()),
    {
        let ghost all = views(args@);
        let mut out = Args { socket_group_gid: None, show_version: false, ignored: Vec::new() };
        let n = args.len();
        let mut i: usize = 0;
        assert(all.skip(0) =~= all);
        assert(out@.ignored =~= Seq::<Seq<char>>::empty());
        while i < n
            invariant
                n == args@.len(),
                all == views(args@),
                i <= n,
                !out.show_version,
                read_args(all.skip(i as int), out@) == read_args(all, no_args()),
            decreases n - i,
        {
            let arg = args[i].as_str();
            let ghost rest = all.skip(i as int);
            assert(rest[0] == arg@);
            if str_eq(arg, "--socket-group-gid") {
                if i + 1 < n {
                    out.socket_group_gid = parse_u32_str(args[i + 1].as_str());
                    assert(rest[1] == args@[i + 1]@);
                    assert(rest.skip(2) =~= all.skip(i + 2));
                    i = i + 2;
                } else {
                    out.socket_group_gid = None;
                    return out;
                }
            } else if str_eq(arg, "--version") {
                out.show_version = true;
                return out;
            } else {
                let ghost before = out@;
                out.ignored.push(copy_str(arg));
                assert(out@.ignored =~= before.ignored.push(arg@));
                assert(rest.skip(1) =~= all.skip(i + 1));
                i = i + 1;
            }
        }
        assert(all.skip(n as int) =~= Seq::<Seq<char>>::empty());
        out
    }
}

// ---------------------------------------------------------------------------------------------
// Laws
// ---------------------------------------------------------------------------------------------

/// A config that fails validation never reaches the engine: whatever the request, an operation
/// to start is only ever handed out for a valid config, and an invalid one is answered as a bad
/// request whether or not there is an engine.
pub proof fn only_valid_configs_reach_the_engine(
    request: RequestView,
    engine: Result<EngineStateView, Seq<char>>,
    daemon_version: Seq<char>,
    now: u64,
)
    ensures
        answer(request, engine, daemon_version, now) matches HandledView::Start { config, .. }
            ==> config_error(config) is None,
        request matches RequestView::Start { config, .. } && config_error(config) is Some ==> answer(
            request,
            engine,
            daemon_version,
            now,
        ) matches HandledView::Reply(ResponseView::Error { code: ErrorCode::BadRequest, .. }),
{
}

/// A ping is answered with a pong exactly when the client speaks this protocol, and with a
/// protocol mismatch otherwise.
pub proof fn a_ping_is_answered_only_in_the_same_protocol(
    protocol: u32,
    engine: Result<EngineStateView, Seq<char>>,
    daemon_version: Seq<char>,
    now: u64,
)
    ensures
        ({
            let a = answer(RequestView::Ping { protocol }, engine, daemon_version, now);
            &&& (a matches HandledView::Reply(ResponseView::Pong { .. })) == (protocol
                == PROTOCOL_VERSION)
            &&& (a matches HandledView::Reply(
                ResponseView::Error { code: ErrorCode::ProtocolMismatch, .. },
            )) == (protocol != PROTOCOL_VERSION)
        }),
{
}

/// A status request is always answered with a status, and without an engine that status says
/// nothing runs and why.
pub proof fn status_always_answers_with_a_status(
    engine: Result<EngineStateView, Seq<char>>,
    daemon_version: Seq<char>,
    now: u64,
)
    ensures
        answer(RequestView::Status, engine, daemon_version, now) matches HandledView::Reply(
            ResponseView::Status(st),
        ) && (engine matches Err(why) ==> !st.running && st.last_error == Some(why)),
{
}

/// Without an engine no operation is ever handed out: every request is answered directly.
pub proof fn without_an_engine_nothing_is_operated(
    request: RequestView,
    why: Seq<char>,
    daemon_version: Seq<char>,
    now: u64,
)
    ensures
        answer(request, Err(why), daemon_version, now) is Reply,
{
}

} // verus!
