//! What a config asks for versus what this build knows about.
//!
//! A profile's actions are portable across platforms by construction, because they are Lua rather
//! than compiled-in flags. Only the *interception* layer differs (`--qnum` on Linux, `--wf-*` on
//! Windows, `--port` on BSD), and none of that is user config — the daemon supplies it.
//!
//! So what is worth checking here is whether the Lua functions a config names actually exist. A
//! misspelled `multispilt` is otherwise a strategy that silently does nothing.

use crate::config::{compat_error, error_message, ActionView, Config, ConfigView, StrategyView};
use crate::text::{push_str, str_eq};
use vstd::prelude::*;
use vstd::string::*;

verus! {

#[derive(Debug, Clone, Copy, PartialEq, Eq, Structural)]
pub enum Platform {
    Linux,
    Windows,
    /// FreeBSD and OpenBSD, both served by `dvtws2` over ipfw/pf.
    Bsd,
}

pub open spec fn platform_for_os(os: Seq<char>) -> Option<Platform> {
    if os == "linux"@ {
        Some(Platform::Linux)
    } else if os == "windows"@ {
        Some(Platform::Windows)
    } else if os == "freebsd"@ || os == "openbsd"@ {
        Some(Platform::Bsd)
    } else {
        None
    }
}

pub open spec fn engine_binary_of(p: Platform) -> Seq<char> {
    match p {
        Platform::Linux => "nfqws2"@,
        Platform::Windows => "winws2"@,
        Platform::Bsd => "dvtws2"@,
    }
}

impl Platform {
    /// The platform for a target OS name as `std::env::consts::OS` spells it. macOS is absent on
    /// purpose: upstream does not support it, because Apple removed `ipdivert` from the kernel and
    /// there is no replacement packet-interception facility.
    pub fn from_target_os(os: &str) -> (r: Option<Platform>)
        ensures
            r == platform_for_os(os@),
    {
        if str_eq(os, "linux") {
            Some(Platform::Linux)
        } else if str_eq(os, "windows") {
            Some(Platform::Windows)
        } else if str_eq(os, "freebsd") || str_eq(os, "openbsd") {
            Some(Platform::Bsd)
        } else {
            None
        }
    }

    /// The zapret2 packet manipulator for this platform.
    pub fn engine_binary(self) -> (r: &'static str)
        ensures
            r@ == engine_binary_of(self),
    {
        match self {
            Platform::Linux => "nfqws2",
            Platform::Windows => "winws2",
            Platform::Bsd => "dvtws2",
        }
    }
}

#[derive(Debug, Clone, Copy, PartialEq, Eq, Structural)]
pub enum Category {
    Base,
    HttpFooling,
    WindowSize,
    Fake,
    TcpSegmentation,
    UdpFooling,
    Other,
    State,
    Detection,
    Orchestrator,
}

#[derive(Debug, Clone, Copy)]
pub struct FunctionSpec {
    pub name: &'static str,
    pub category: Category,
}

impl View for FunctionSpec {
    type V = (Seq<char>, Category);

    open spec fn view(&self) -> (Seq<char>, Category) {
        (self.name@, self.category)
    }
}

/// The `zapret-antidpi.lua` surface, as documented in the zapret2 manual.
pub open spec fn function_table() -> Seq<(Seq<char>, Category)> {
    seq![
        ("drop"@, Category::Base),
        ("send"@, Category::Base),
        ("pktmod"@, Category::Base),
        ("http_hostcase"@, Category::HttpFooling),
        ("http_domcase"@, Category::HttpFooling),
        ("http_methodeol"@, Category::HttpFooling),
        ("http_unixeol"@, Category::HttpFooling),
        ("wsize"@, Category::WindowSize),
        ("wssize"@, Category::WindowSize),
        ("syndata"@, Category::Fake),
        ("tls_client_hello_clone"@, Category::Fake),
        ("fake"@, Category::Fake),
        ("rst"@, Category::Fake),
        ("multisplit"@, Category::TcpSegmentation),
        ("multidisorder"@, Category::TcpSegmentation),
        ("multidisorder_legacy"@, Category::TcpSegmentation),
        ("fakedsplit"@, Category::TcpSegmentation),
        ("fakeddisorder"@, Category::TcpSegmentation),
        ("hostfakesplit"@, Category::TcpSegmentation),
        ("tcpseg"@, Category::TcpSegmentation),
        ("oob"@, Category::TcpSegmentation),
        ("udplen"@, Category::UdpFooling),
        ("dht_dn"@, Category::UdpFooling),
        ("synack"@, Category::Other),
        ("synack_split"@, Category::Other),
        ("automate_conn_record"@, Category::State),
        ("standard_hostkey"@, Category::State),
        ("automate_host_record"@, Category::State),
        ("automate_failure_counter"@, Category::Detection),
        ("automate_failure_counter_reset"@, Category::Detection),
        ("automate_failure_check"@, Category::Detection),
        ("standard_success_detector"@, Category::Detection),
        ("standard_failure_detector"@, Category::Detection),
        ("circular"@, Category::Orchestrator),
        ("repeater"@, Category::Orchestrator),
        ("condition"@, Category::Orchestrator),
    ]
}

pub open spec fn spec_views(v: Seq<FunctionSpec>) -> Seq<(Seq<char>, Category)> {
    v.map_values(|f: FunctionSpec| f@)
}

fn spec(name: &'static str, category: Category) -> (r: FunctionSpec)
    ensures
        r.name == name,
        r.category == category,
{
    FunctionSpec { name, category }
}

/// The known Lua functions. Extending it is how a new upstream Lua function becomes selectable
/// in the GUI; nothing is rendered from it by name, so an out-of-date list costs a spurious
/// warning rather than a broken config.
pub fn functions() -> (r: Vec<FunctionSpec>)
    ensures
        spec_views(r@) == function_table(),
{
    let r = vec![
        spec("drop", Category::Base),
        spec("send", Category::Base),
        spec("pktmod", Category::Base),
        spec("http_hostcase", Category::HttpFooling),
        spec("http_domcase", Category::HttpFooling),
        spec("http_methodeol", Category::HttpFooling),
        spec("http_unixeol", Category::HttpFooling),
        spec("wsize", Category::WindowSize),
        spec("wssize", Category::WindowSize),
        spec("syndata", Category::Fake),
        spec("tls_client_hello_clone", Category::Fake),
        spec("fake", Category::Fake),
        spec("rst", Category::Fake),
        spec("multisplit", Category::TcpSegmentation),
        spec("multidisorder", Category::TcpSegmentation),
        spec("multidisorder_legacy", Category::TcpSegmentation),
        spec("fakedsplit", Category::TcpSegmentation),
        spec("fakeddisorder", Category::TcpSegmentation),
        spec("hostfakesplit", Category::TcpSegmentation),
        spec("tcpseg", Category::TcpSegmentation),
        spec("oob", Category::TcpSegmentation),
        spec("udplen", Category::UdpFooling),
        spec("dht_dn", Category::UdpFooling),
        spec("synack", Category::Other),
        spec("synack_split", Category::Other),
        spec("automate_conn_record", Category::State),
        spec("standard_hostkey", Category::State),
        spec("automate_host_record", Category::State),
        spec("automate_failure_counter", Category::Detection),
        spec("automate_failure_counter_reset", Category::Detection),
        spec("automate_failure_check", Category::Detection),
        spec("standard_success_detector", Category::Detection),
        spec("standard_failure_detector", Category::Detection),
        spec("circular", Category::Orchestrator),
        spec("repeater", Category::Orchestrator),
        spec("condition", Category::Orchestrator),
    ];
    assert(spec_views(r@) =~= function_table());
    r
}

/// The first table entry named `name`.
pub open spec fn lookup_function(t: Seq<(Seq<char>, Category)>, name: Seq<char>) -> Option<
    (Seq<char>, Category),
>
    decreases t.len(),
{
    if t.len() == 0 {
        None
    } else if t[0].0 == name {
        Some(t[0])
    } else {
        lookup_function(t.skip(1), name)
    }
}

pub open spec fn is_known_function(name: Seq<char>) -> bool {
    lookup_function(function_table(), name) is Some
}

proof fn lemma_lookup_function_index(t: Seq<(Seq<char>, Category)>, name: Seq<char>, i: int)
    requires
        0 <= i <= t.len(),
        forall|j: int| 0 <= j < i ==> (#[trigger] t[j]).0 != name,
    ensures
        i < t.len() && t[i].0 == name ==> lookup_function(t, name) == Some(t[i]),
        i == t.len() ==> lookup_function(t, name) is None,
    decreases i,
{
    if i > 0 {
        let u = t.skip(1);
        assert forall|j: int| 0 <= j < i - 1 implies (#[trigger] u[j]).0 != name by {
            assert(u[j] == t[j + 1]);
        }
        lemma_lookup_function_index(u, name, i - 1);
    } else if t.len() == 0 {
    }
}

/// The table entry for the Lua function `name`, if this build knows it.
pub fn function(name: &str) -> (r: Option<FunctionSpec>)
    ensures
        match r {
            Some(f) => lookup_function(function_table(), name@) == Some(f@),
            None => lookup_function(function_table(), name@) is None,
        },
{
    let table = functions();
    let n = table.len();
    let mut i: usize = 0;
    while i < n
        invariant
            n == table@.len(),
            spec_views(table@) == function_table(),
            i <= n,
            forall|j: int| 0 <= j < i ==> (#[trigger] function_table()[j]).0 != name@,
        decreases n - i,
    {
        assert(function_table()[i as int] == table@[i as int]@);
        if str_eq(table[i].name, name) {
            proof {
                lemma_lookup_function_index(function_table(), name@, i as int);
            }
            return Some(table[i]);
        }
        i = i + 1;
    }
    proof {
        lemma_lookup_function_index(function_table(), name@, n as int);
    }
    None
}

#[derive(Debug, Clone, PartialEq, Eq)]
pub struct Warning {
    /// Strategy the warning came from, or `None` for config-wide ones.
    pub strategy: Option<String>,
    pub message: String,
}

pub struct WarningView {
    pub strategy: Option<Seq<char>>,
    pub message: Seq<char>,
}

impl View for Warning {
    type V = WarningView;

    open spec fn view(&self) -> WarningView {
        WarningView { strategy: crate::config::opt_view(self.strategy), message: self.message@ }
    }
}

pub open spec fn warning_views(v: Seq<Warning>) -> Seq<WarningView> {
    v.map_values(|w: Warning| w@)
}

pub open spec fn unknown_function_message(f: Seq<char>) -> Seq<char> {
    "`"@ + f
        + "` is not a Lua function this build knows; it is passed through and will fail at runtime if upstream does not define it"@
}

pub open spec fn no_actions_message() -> Seq<char> {
    "no actions, so this strategy matches traffic and does nothing to it"@
}

/// Warnings for the actions of strategy `name`: one per unknown function, in order.
pub open spec fn action_warnings(name: Seq<char>, actions: Seq<ActionView>) -> Seq<WarningView>
    decreases actions.len(),
{
    if actions.len() == 0 {
        Seq::empty()
    } else {
        action_warnings(name, actions.drop_last()) + if is_known_function(
            actions.last().function,
        ) {
            Seq::empty()
        } else {
            seq![
                WarningView {
                    strategy: Some(name),
                    message: unknown_function_message(actions.last().function),
                },
            ]
        }
    }
}

pub open spec fn strategy_warnings(s: StrategyView) -> Seq<WarningView> {
    (if s.actions.len() == 0 {
        seq![WarningView { strategy: Some(s.name), message: no_actions_message() }]
    } else {
        Seq::empty()
    }) + action_warnings(s.name, s.actions)
}

/// Warnings for every enabled strategy, in order; disabled ones are not linted.
pub open spec fn strategies_warnings(ss: Seq<StrategyView>) -> Seq<WarningView>
    decreases ss.len(),
{
    if ss.len() == 0 {
        Seq::empty()
    } else {
        strategies_warnings(ss.drop_last()) + if ss.last().enabled {
            strategy_warnings(ss.last())
        } else {
            Seq::empty()
        }
    }
}

/// What [`lint`] reports: a config-wide compat warning first, then each enabled strategy's.
pub open spec fn lint_spec(c: ConfigView) -> Seq<WarningView> {
    (match compat_error(c) {
        Some(e) => seq![
            WarningView {
                strategy: None,
                message: error_message(e) + "; action arguments may have changed meaning"@,
            },
        ],
        None => Seq::empty(),
    }) + strategies_warnings(c.strategies)
}

fn push_warning(out: &mut Vec<Warning>, strategy: Option<String>, message: String)
    ensures
        warning_views(final(out)@) == warning_views(old(out)@).push(
            WarningView { strategy: crate::config::opt_view(strategy), message: message@ },
        ),
{
    let w = Warning { strategy, message };
    out.push(w);
    assert(warning_views(final(out)@) =~= warning_views(old(out)@).push(w@));
}

/// Reports what will not do what the config appears to say. Never an error: a config that warns
/// still runs, and nfqws2's own `--dry-run` is the authority on whether it loads.
pub fn lint(config: &Config) -> (r: Vec<Warning>)
    ensures
        warning_views(r@) == lint_spec(config@),
{
    let mut out: Vec<Warning> = Vec::new();
    if let Err(e) = config.compat_check() {
        let mut message = e.message();
        push_str(&mut message, "; action arguments may have changed meaning");
        push_warning(&mut out, None, message);
    }
    let ghost head = warning_views(out@);
    assert(head == lint_spec(config@).take(head.len() as int)) by {
        assert(lint_spec(config@) =~= head + strategies_warnings(config@.strategies));
    }
    let n = config.strategies.len();
    let mut i: usize = 0;
    assert(config@.strategies.take(0) =~= Seq::<StrategyView>::empty());
    while i < n
        invariant
            n == config.strategies@.len(),
            i <= n,
            head + strategies_warnings(config@.strategies) == lint_spec(config@),
            warning_views(out@) == head + strategies_warnings(config@.strategies.take(i as int)),
        decreases n - i,
    {
        let strategy = &config.strategies[i];
        let ghost before = warning_views(out@);
        if strategy.enabled {
            if strategy.actions.len() == 0 {
                push_warning(
                    &mut out,
                    Some(strategy.name.clone()),
                    "no actions, so this strategy matches traffic and does nothing to it".to_owned(),
                );
            }
            let ghost mid = warning_views(out@);
            let m = strategy.actions.len();
            let mut j: usize = 0;
            assert(strategy@.actions.take(0) =~= Seq::<ActionView>::empty());
            while j < m
                invariant
                    m == strategy.actions@.len(),
                    j <= m,
                    warning_views(out@) == mid + action_warnings(
                        strategy@.name,
                        strategy@.actions.take(j as int),
                    ),
                decreases m - j,
            {
                let action = &strategy.actions[j];
                let ghost prev = warning_views(out@);
                if function(action.function.as_str()).is_none() {
                    let mut message = "`".to_owned();
                    push_str(&mut message, action.function.as_str());
                    push_str(
                        &mut message,
                        "` is not a Lua function this build knows; it is passed through and will fail at runtime if upstream does not define it",
                    );
                    push_warning(&mut out, Some(strategy.name.clone()), message);
                }
                proof {
                    let t = strategy@.actions.take(j + 1);
                    assert(t.drop_last() =~= strategy@.actions.take(j as int));
                    assert(t.last() == action@);
                    assert(warning_views(out@) =~= mid + action_warnings(strategy@.name, t));
                }
                j = j + 1;
            }
            assert(strategy@.actions.take(m as int) =~= strategy@.actions);
            assert(warning_views(out@) =~= before + strategy_warnings(strategy@));
        }
        proof {
            let t = config@.strategies.take(i + 1);
            assert(t.drop_last() =~= config@.strategies.take(i as int));
            assert(t.last() == strategy@);
            assert(warning_views(out@) =~= head + strategies_warnings(t));
        }
        i = i + 1;
    }
    assert(config@.strategies.take(n as int) =~= config@.strategies);
    out
}

// ---------------------------------------------------------------------------------------------
// Laws
// ---------------------------------------------------------------------------------------------

/// A disabled strategy contributes no warning, whatever it holds.
pub proof fn disabled_strategies_are_not_linted(c: ConfigView, i: int)
    requires
        0 <= i < c.strategies.len(),
        !c.strategies[i].enabled,
    ensures
        lint_spec(c) == lint_spec(ConfigView { strategies: c.strategies.remove(i), ..c }),
{
    lemma_warnings_skip_disabled(c.strategies, i);
}

proof fn lemma_warnings_skip_disabled(ss: Seq<StrategyView>, i: int)
    requires
        0 <= i < ss.len(),
        !ss[i].enabled,
    ensures
        strategies_warnings(ss) == strategies_warnings(ss.remove(i)),
    decreases ss.len(),
{
    if i == ss.len() - 1 {
        assert(ss.remove(i) =~= ss.drop_last());
    } else {
        lemma_warnings_skip_disabled(ss.drop_last(), i);
        assert(ss.remove(i).drop_last() =~= ss.drop_last().remove(i));
        assert(ss.remove(i).last() == ss.last());
    }
}

/// A compat mismatch is reported once, for the whole config, and before any strategy's warning.
pub proof fn compat_mismatch_warns_once_for_the_whole_config(c: ConfigView)
    ensures
        compat_error(c) is Some ==> lint_spec(c)[0].strategy is None && lint_spec(c).len()
            == strategies_warnings(c.strategies).len() + 1,
        compat_error(c) is None ==> lint_spec(c) == strategies_warnings(c.strategies),
        forall|k: int|
            0 <= k < strategies_warnings(c.strategies).len() ==> (#[trigger] strategies_warnings(
                c.strategies,
            )[k]).strategy is Some,
{
    lemma_strategy_warnings_are_attributed(c.strategies);
    if compat_error(c) is None {
        assert(lint_spec(c) =~= strategies_warnings(c.strategies));
    }
}

proof fn lemma_action_warnings_attributed(name: Seq<char>, actions: Seq<ActionView>)
    ensures
        forall|k: int|
            0 <= k < action_warnings(name, actions).len() ==> (#[trigger] action_warnings(
                name,
                actions,
            )[k]).strategy == Some(name),
    decreases actions.len(),
{
    if actions.len() > 0 {
        lemma_action_warnings_attributed(name, actions.drop_last());
    }
}

proof fn lemma_strategy_warnings_are_attributed(ss: Seq<StrategyView>)
    ensures
        forall|k: int|
            0 <= k < strategies_warnings(ss).len() ==> (#[trigger] strategies_warnings(
                ss,
            )[k]).strategy is Some,
    decreases ss.len(),
{
    if ss.len() > 0 {
        lemma_strategy_warnings_are_attributed(ss.drop_last());
        lemma_action_warnings_attributed(ss.last().name, ss.last().actions);
        let a = strategies_warnings(ss.drop_last());
        let b = if ss.last().enabled {
            strategy_warnings(ss.last())
        } else {
            Seq::empty()
        };
        assert forall|k: int| 0 <= k < (a + b).len() implies (#[trigger] (a + b)[k]).strategy is Some by {
            if k >= a.len() {
                let s = ss.last();
                let pre = if s.actions.len() == 0 {
                    seq![WarningView { strategy: Some(s.name), message: no_actions_message() }]
                } else {
                    Seq::empty()
                };
                let kk = k - a.len();
                if kk >= pre.len() {
                    assert(b[kk] == action_warnings(s.name, s.actions)[kk - pre.len()]);
                }
            }
        }
    }
}


/// The actions whose function this build does not know.
pub open spec fn unknown_action() -> spec_fn(ActionView) -> bool {
    |a: ActionView| !is_known_function(a.function)
}

/// The warning an unknown action of strategy `name` gets.
pub open spec fn unknown_warning(name: Seq<char>) -> spec_fn(ActionView) -> WarningView {
    |a: ActionView| WarningView { strategy: Some(name), message: unknown_function_message(a.function) }
}

/// Every unknown function is reported, once, in action order: the warnings for a strategy's
/// actions are exactly its actions with an unknown function, each turned into a warning that
/// names that function and the strategy. Known functions get none.
pub proof fn one_warning_per_unknown_function(name: Seq<char>, actions: Seq<ActionView>)
    ensures
        action_warnings(name, actions) == actions.filter(unknown_action()).map_values(
            unknown_warning(name),
        ),
        action_warnings(name, actions).len() == actions.filter(unknown_action()).len(),
    decreases actions.len(),
{
    reveal(Seq::filter);
    if actions.len() > 0 {
        one_warning_per_unknown_function(name, actions.drop_last());
        let rest = actions.drop_last().filter(unknown_action());
        let a = actions.last();
        if unknown_action()(a) {
            assert(actions.filter(unknown_action()) == rest.push(a));
            assert(rest.push(a).map_values(unknown_warning(name)) =~= rest.map_values(
                unknown_warning(name),
            ) + seq![unknown_warning(name)(a)]);
        } else {
            assert(actions.filter(unknown_action()) == rest);
            assert(action_warnings(name, actions) =~= action_warnings(name, actions.drop_last()));
        }
    } else {
        assert(actions.filter(unknown_action()) =~= Seq::<ActionView>::empty());
        assert(action_warnings(name, actions) =~= Seq::<WarningView>::empty());
    }
}

/// A config whose engine interface matches, with one enabled strategy that has actions, lints to
/// exactly one warning per action whose function is unknown, in action order, each attributed to
/// the strategy and naming the function.
pub proof fn lint_reports_each_unknown_function(c: ConfigView)
    requires
        compat_error(c) is None,
        c.strategies.len() == 1,
        c.strategies[0].enabled,
        c.strategies[0].actions.len() > 0,
    ensures
        lint_spec(c) == c.strategies[0].actions.filter(unknown_action()).map_values(
            unknown_warning(c.strategies[0].name),
        ),
{
    let s = c.strategies[0];
    one_warning_per_unknown_function(s.name, s.actions);
    assert(c.strategies.drop_last() =~= Seq::<StrategyView>::empty());
    assert(c.strategies.last() == s);
    assert(strategies_warnings(Seq::<StrategyView>::empty()) =~= Seq::<WarningView>::empty());
    assert(strategy_warnings(s) =~= action_warnings(s.name, s.actions));
    assert(lint_spec(c) =~= action_warnings(s.name, s.actions));
}

/// The strategies that are linted.
pub open spec fn enabled_strategy() -> spec_fn(StrategyView) -> bool {
    |s: StrategyView| s.enabled
}

/// What one linted strategy is warned of: having no actions, then each action whose function is
/// unknown, in order.
pub open spec fn warnings_for() -> spec_fn(StrategyView) -> Seq<WarningView> {
    |s: StrategyView|
        (if s.actions.len() == 0 {
            seq![WarningView { strategy: Some(s.name), message: no_actions_message() }]
        } else {
            Seq::empty()
        }) + s.actions.filter(unknown_action()).map_values(unknown_warning(s.name))
}

proof fn lemma_strategies_warned(ss: Seq<StrategyView>)
    ensures
        strategies_warnings(ss) == ss.filter(enabled_strategy()).map_values(warnings_for()).flatten_alt(),
    decreases ss.len(),
{
    reveal(Seq::filter);
    if ss.len() == 0 {
        assert(ss.filter(enabled_strategy()) =~= Seq::<StrategyView>::empty());
        assert(ss.filter(enabled_strategy()).map_values(warnings_for()) =~= Seq::<
            Seq<WarningView>,
        >::empty());
    } else {
        lemma_strategies_warned(ss.drop_last());
        let rest = ss.drop_last().filter(enabled_strategy());
        let last = ss.last();
        if last.enabled {
            one_warning_per_unknown_function(last.name, last.actions);
            assert(ss.filter(enabled_strategy()) == rest.push(last));
            let mapped = rest.push(last).map_values(warnings_for());
            assert(mapped =~= rest.map_values(warnings_for()).push(warnings_for()(last)));
            assert(mapped.drop_last() =~= rest.map_values(warnings_for()));
            assert(mapped.flatten_alt() == mapped.drop_last().flatten_alt() + mapped.last());
            assert(strategy_warnings(last) == warnings_for()(last));
        } else {
            assert(ss.filter(enabled_strategy()) == rest);
            assert(strategies_warnings(ss) =~= strategies_warnings(ss.drop_last()));
        }
    }
}

/// Lint reports, after a config-wide warning when the engine interface differs, each enabled
/// strategy in order (disabled ones are skipped): one warning if it has no actions, then one per
/// action whose function is unknown, in action order, each attributed to the strategy.
pub proof fn lint_warns_for_each_enabled_strategy(c: ConfigView)
    ensures
        lint_spec(c) == (match compat_error(c) {
            Some(e) => seq![
                WarningView {
                    strategy: None,
                    message: error_message(e) + "; action arguments may have changed meaning"@,
                },
            ],
            None => Seq::empty(),
        }) + c.strategies.filter(enabled_strategy()).map_values(warnings_for()).flatten_alt(),
{
    lemma_strategies_warned(c.strategies);
}
} // verus!
