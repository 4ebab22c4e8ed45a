//! Renders a [`Config`] into nfqws2 options.
//!
//! Output is a parameter file for nfqws2's `@<config_file>` option — one option per line, read as
//! if typed on the command line. Rendering is pure: no filesystem, no process, which lets the GUI
//! preview exactly what the daemon will run.

use crate::args::args_insert;
use crate::config::{
    action_error, arg_error, config_error, filter_error, is_safe_value, is_token,
    lemma_first_error_none, opt_value_error, strategy_error, string_views, token_error,
    valid_means_every_field_checked, Action, ActionView, Config, ConfigView, Filter, FilterView,
    Strategy, StrategyView,
};
use crate::registry::Platform;
use crate::text::{
    decimal, find_char, is_digit, is_prefix, join, lemma_contains_concat, lemma_decimal_digits,
    lemma_find_char, lemma_join_free_of, lemma_lines_of_joined, lemma_lines_of_joined_stripped,
    lines, push_char, push_decimal, push_str, seq_join, strip_cr, unbroken, views,
};
use vstd::prelude::*;
use vstd::string::*;

verus! {

/// Options every instance gets, independent of the config. Interception is the only part that
/// differs per platform.
#[derive(Debug, Clone, PartialEq, Eq)]
pub struct EngineOptions {
    pub platform: Platform,
    /// nfqueue number on Linux. Ignored elsewhere.
    pub queue_num: u16,
    /// Written by the engine so the daemon can supervise it.
    pub pidfile: String,
    /// `--debug=@<path>`; the file the GUI's log viewer tails.
    pub debug_log: Option<String>,
    /// zapret2's Lua library, in load order. Every desync function lives there.
    pub lua_init: Vec<String>,
    /// Render for validation instead of a real run: `--intercept=0` makes the engine load the Lua,
    /// resolve every action and exit without opening NFQUEUE.
    pub validate: bool,
}

pub struct EngineOptionsView {
    pub platform: Platform,
    pub queue_num: u16,
    pub pidfile: Seq<char>,
    pub debug_log: Option<Seq<char>>,
    pub lua_init: Seq<Seq<char>>,
    pub validate: bool,
}

impl View for EngineOptions {
    type V = EngineOptionsView;

    open spec fn view(&self) -> EngineOptionsView {
        EngineOptionsView {
            platform: self.platform,
            queue_num: self.queue_num,
            pidfile: self.pidfile@,
            debug_log: crate::config::opt_view(self.debug_log),
            lua_init: string_views(self.lua_init@),
            validate: self.validate,
        }
    }
}

impl EngineOptions {
    pub fn new(platform: Platform) -> (r: Self)
        ensures
            r@.platform == platform,
            r@.queue_num == 200,
            r@.pidfile == Seq::<char>::empty(),
            r@.debug_log is None,
            r@.lua_init == Seq::<Seq<char>>::empty(),
            !r@.validate,
    {
        let r = EngineOptions {
            platform,
            queue_num: 200,
            pidfile: String::new(),
            debug_log: None,
            lua_init: Vec::new(),
            validate: false,
        };
        assert(r@.lua_init =~= Seq::<Seq<char>>::empty());
        r
    }
}

// ---------------------------------------------------------------------------------------------
// The parameter file, line by line
// ---------------------------------------------------------------------------------------------

pub open spec fn lua_init_lines(scripts: Seq<Seq<char>>) -> Seq<Seq<char>> {
    scripts.map_values(|s: Seq<char>| "--lua-init=@"@ + s)
}

/// Lines that come before any profile: validation mode, the queue, the pidfile, the debug log and
/// the Lua library.
pub open spec fn header_lines(e: EngineOptionsView) -> Seq<Seq<char>> {
    (if e.validate {
        seq!["--intercept=0"@]
    } else {
        Seq::empty()
    }) + (if e.platform == Platform::Linux {
        seq!["--qnum="@ + decimal(e.queue_num as nat)]
    } else {
        Seq::empty()
    }) + (if e.pidfile.len() > 0 {
        seq!["--pidfile="@ + e.pidfile]
    } else {
        Seq::empty()
    }) + (match e.debug_log {
        Some(log) => seq!["--debug=@"@ + log],
        None => Seq::empty(),
    }) + lua_init_lines(e.lua_init)
}

pub open spec fn opt_line(flag: Seq<char>, value: Option<Seq<char>>) -> Seq<Seq<char>> {
    match value {
        Some(v) => seq![flag + "="@ + v],
        None => Seq::empty(),
    }
}

pub open spec fn l7_line(l7: Seq<Seq<char>>) -> Seq<Seq<char>> {
    if l7.len() > 0 {
        seq!["--filter-l7="@ + seq_join(l7, ","@)]
    } else {
        Seq::empty()
    }
}

/// The profile's filter options: layer 3, the ports, the application protocols, then the host
/// lists and ip sets.
pub open spec fn filter_lines(f: FilterView) -> Seq<Seq<char>> {
    opt_line("--filter-l3"@, f.l3) + opt_line("--filter-tcp"@, f.tcp) + opt_line(
        "--filter-udp"@,
        f.udp,
    ) + l7_line(f.l7) + opt_line("--hostlist"@, f.hostlist) + opt_line(
        "--hostlist-exclude"@,
        f.hostlist_exclude,
    ) + opt_line("--hostlist-auto"@, f.hostlist_auto) + opt_line("--ipset"@, f.ipset) + opt_line(
        "--ipset-exclude"@,
        f.ipset_exclude,
    )
}

/// One argument of a `--lua-desync` call: `:key=value`, or `:key` for an empty value.
pub open spec fn arg_text(key: Seq<char>, value: Seq<char>) -> Seq<char> {
    if value.len() == 0 {
        ":"@ + key
    } else {
        ":"@ + key + "="@ + value
    }
}

pub open spec fn args_text(args: Seq<(Seq<char>, Seq<char>)>) -> Seq<char>
    decreases args.len(),
{
    if args.len() == 0 {
        Seq::empty()
    } else {
        args_text(args.drop_last()) + arg_text(args.last().0, args.last().1)
    }
}

pub open spec fn desync_line(a: ActionView) -> Seq<char> {
    "--lua-desync="@ + a.function + args_text(a.args)
}

pub open spec fn action_text_lines(a: ActionView) -> Seq<Seq<char>> {
    (if a.payload.len() > 0 {
        seq!["--payload="@ + seq_join(a.payload, ","@)]
    } else {
        Seq::empty()
    }) + seq![desync_line(a)]
}

pub open spec fn actions_lines(acts: Seq<ActionView>) -> Seq<Seq<char>>
    decreases acts.len(),
{
    if acts.len() == 0 {
        Seq::empty()
    } else {
        actions_lines(acts.drop_last()) + action_text_lines(acts.last())
    }
}

/// One profile. nfqws2 has profile 1 open before it reads anything, so the first enabled strategy
/// names that one (`--name`) and later ones open new profiles (`--new`).
pub open spec fn profile_lines(s: StrategyView, first: bool) -> Seq<Seq<char>> {
    seq![Seq::empty(), (if first {
        "--name"@
    } else {
        "--new"@
    }) + "="@ + s.name] + filter_lines(s.filter) + actions_lines(s.actions)
}

pub open spec fn enabled_count(ss: Seq<StrategyView>) -> nat
    decreases ss.len(),
{
    if ss.len() == 0 {
        0
    } else {
        enabled_count(ss.drop_last()) + if ss.last().enabled {
            1nat
        } else {
            0nat
        }
    }
}

/// The profiles of the enabled strategies, in order; disabled ones render nothing.
pub open spec fn profiles(ss: Seq<StrategyView>) -> Seq<Seq<char>>
    decreases ss.len(),
{
    if ss.len() == 0 {
        Seq::empty()
    } else {
        profiles(ss.drop_last()) + if ss.last().enabled {
            profile_lines(ss.last(), enabled_count(ss.drop_last()) == 0)
        } else {
            Seq::empty()
        }
    }
}

pub open spec fn render_lines(c: ConfigView, e: EngineOptionsView) -> Seq<Seq<char>> {
    header_lines(e) + profiles(c.strategies)
}

/// The parameter file: the lines joined by newlines, with a final newline.
pub open spec fn parameter_file_text(c: ConfigView, e: EngineOptionsView) -> Seq<char> {
    seq_join(render_lines(c, e), "\n"@) + "\n"@
}

fn push_line(lines: &mut Vec<String>, line: String)
    ensures
        views(final(lines)@) == views(old(lines)@).push(line@),
{
    lines.push(line);
    assert(views(final(lines)@) =~= views(old(lines)@).push(line@));
}

fn flag_line(flag: &str, value: &str) -> (r: String)
    ensures
        r@ == flag@ + value@,
{
    let mut s = flag.to_owned();
    push_str(&mut s, value);
    s
}

fn push_opt_line(lines: &mut Vec<String>, flag: &str, value: &Option<String>)
    ensures
        views(final(lines)@) == views(old(lines)@) + opt_line(flag@, crate::config::opt_view(*value)),
{
    match value {
        Some(v) => {
            let mut s = flag.to_owned();
            push_str(&mut s, "=");
            push_str(&mut s, v.as_str());
            push_line(lines, s);
        },
        None => {
            assert(views(lines@) =~= views(lines@) + Seq::<Seq<char>>::empty());
        },
    }
}

fn push_filter_lines(lines: &mut Vec<String>, filter: &Filter)
    ensures
        views(final(lines)@) == views(old(lines)@) + filter_lines(filter@),
{
    let ghost start = views(lines@);
    let ghost f = filter@;
    let ghost p1 = opt_line("--filter-l3"@, f.l3);
    let ghost p2 = p1 + opt_line("--filter-tcp"@, f.tcp);
    let ghost p3 = p2 + opt_line("--filter-udp"@, f.udp);
    let ghost p4 = p3 + l7_line(f.l7);
    let ghost p5 = p4 + opt_line("--hostlist"@, f.hostlist);
    let ghost p6 = p5 + opt_line("--hostlist-exclude"@, f.hostlist_exclude);
    let ghost p7 = p6 + opt_line("--hostlist-auto"@, f.hostlist_auto);
    let ghost p8 = p7 + opt_line("--ipset"@, f.ipset);
    let ghost p9 = p8 + opt_line("--ipset-exclude"@, f.ipset_exclude);
    push_opt_line(lines, "--filter-l3", &filter.l3);
    assert(views(lines@) =~= start + p1);
    push_opt_line(lines, "--filter-tcp", &filter.tcp);
    assert(views(lines@) =~= start + p2);
    push_opt_line(lines, "--filter-udp", &filter.udp);
    assert(views(lines@) =~= start + p3);
    if filter.l7.len() > 0 {
        let joined = join(&filter.l7, ",");
        push_line(lines, flag_line("--filter-l7=", joined.as_str()));
        proof {
            reveal_strlit("--filter-l7=");
            reveal_strlit("--filter-l7");
            reveal_strlit("=");
            assert("--filter-l7="@ =~= "--filter-l7"@ + "="@);
            assert(views(lines@) =~= start + (p3 + seq!["--filter-l7="@ + seq_join(f.l7, ","@)]));
        }
    } else {
        assert(views(lines@) =~= start + (p3 + Seq::<Seq<char>>::empty()));
    }
    assert(views(lines@) =~= start + p4);
    push_opt_line(lines, "--hostlist", &filter.hostlist);
    assert(views(lines@) =~= start + p5);
    push_opt_line(lines, "--hostlist-exclude", &filter.hostlist_exclude);
    assert(views(lines@) =~= start + p6);
    push_opt_line(lines, "--hostlist-auto", &filter.hostlist_auto);
    assert(views(lines@) =~= start + p7);
    push_opt_line(lines, "--ipset", &filter.ipset);
    assert(views(lines@) =~= start + p8);
    push_opt_line(lines, "--ipset-exclude", &filter.ipset_exclude);
    assert(views(lines@) =~= start + p9);
}

fn push_action_lines(lines: &mut Vec<String>, action: &Action)
    ensures
        views(final(lines)@) == views(old(lines)@) + action_text_lines(action@),
{
    let ghost start = views(lines@);
    if action.payload.len() > 0 {
        let joined = join(&action.payload, ",");
        push_line(lines, flag_line("--payload=", joined.as_str()));
    }
    // `--lua-desync=fn:key=value:bare_flag`. An empty value is a bare flag, which is how the
    // manual documents `badsum` in `fake:blob=...:badsum`.
    let mut call = flag_line("--lua-desync=", action.function.as_str());
    let ghost head = call@;
    let n = action.args.len();
    let mut i: usize = 0;
    assert(action@.args.take(0) =~= Seq::<(Seq<char>, Seq<char>)>::empty());
    while i < n
        invariant
            n == action@.args.len(),
            i <= n,
            call@ == head + args_text(action@.args.take(i as int)),
        decreases n - i,
    {
        let (key, value) = action.args.entry(i);
        push_char(&mut call, ':');
        push_str(&mut call, key.as_str());
        if !value.as_str().is_empty() {
            push_char(&mut call, '=');
            push_str(&mut call, value.as_str());
        }
        proof {
            let t = action@.args.take(i + 1);
            assert(t.drop_last() =~= action@.args.take(i as int));
            assert(t.last() == action@.args[i as int]);
            reveal_strlit(":");
            reveal_strlit("=");
            assert(call@ =~= head + args_text(t));
        }
        i = i + 1;
    }
    assert(action@.args.take(n as int) =~= action@.args);
    push_line(lines, call);
    assert(views(lines@) =~= start + action_text_lines(action@));
}

#[verifier::spinoff_prover]
fn push_profile_lines(lines: &mut Vec<String>, strategy: &Strategy, first: bool)
    ensures
        views(final(lines)@) == views(old(lines)@) + profile_lines(strategy@, first),
{
    let ghost start = views(lines@);
    push_line(lines, String::new());
    let flag = if first {
        "--name="
    } else {
        "--new="
    };
    push_line(lines, flag_line(flag, strategy.name.as_str()));
    assert("--name="@ =~= "--name"@ + "="@) by {
        reveal_strlit("--name=");
        reveal_strlit("--name");
        reveal_strlit("=");
    }
    assert("--new="@ =~= "--new"@ + "="@) by {
        reveal_strlit("--new=");
        reveal_strlit("--new");
        reveal_strlit("=");
    }
    let ghost named = seq![Seq::<char>::empty(), (if first {
        "--name"@
    } else {
        "--new"@
    }) + "="@ + strategy@.name];
    assert(views(lines@) =~= start + named);
    push_filter_lines(lines, &strategy.filter);
    let ghost mid = views(lines@);
    let n = strategy.actions.len();
    let mut i: usize = 0;
    assert(strategy@.actions.take(0) =~= Seq::<ActionView>::empty());
    while i < n
        invariant
            n == strategy@.actions.len(),
            i <= n,
            views(lines@) == mid + actions_lines(strategy@.actions.take(i as int)),
        decreases n - i,
    {
        push_action_lines(lines, &strategy.actions[i]);
        proof {
            let t = strategy@.actions.take(i + 1);
            assert(t.drop_last() =~= strategy@.actions.take(i as int));
            assert(t.last() == strategy@.actions[i as int]);
            assert(views(lines@) =~= mid + actions_lines(t));
        }
        i = i + 1;
    }
    assert(strategy@.actions.take(n as int) =~= strategy@.actions);
    assert(mid =~= start + (named + filter_lines(strategy@.filter)));
    assert(views(lines@) =~= start + profile_lines(strategy@, first));
}

/// The lines of the parameter file.
pub fn render_option_lines(config: &Config, engine: &EngineOptions) -> (r: Vec<String>)
    ensures
        views(r@) == render_lines(config@, engine@),
{
    let mut lines: Vec<String> = Vec::new();
    if engine.validate {
        push_line(&mut lines, "--intercept=0".to_owned());
    }
    match engine.platform {
        Platform::Linux => {
            let mut s = "--qnum=".to_owned();
            push_decimal(&mut s, engine.queue_num as u64);
            push_line(&mut lines, s);
        },
        // winws2 builds its own WinDivert filter from the profile filters; dvtws2 takes a divert
        // port, which the daemon owns rather than the config.
        Platform::Windows | Platform::Bsd => {},
    }
    if !engine.pidfile.as_str().is_empty() {
        push_line(&mut lines, flag_line("--pidfile=", engine.pidfile.as_str()));
    }
    if let Some(log) = &engine.debug_log {
        push_line(&mut lines, flag_line("--debug=@", log.as_str()));
    }
    let ghost pre = views(lines@);
    let n = engine.lua_init.len();
    let mut i: usize = 0;
    while i < n
        invariant
            n == engine@.lua_init.len(),
            i <= n,
            views(lines@) == pre + lua_init_lines(engine@.lua_init.take(i as int)),
        decreases n - i,
    {
        push_line(&mut lines, flag_line("--lua-init=@", engine.lua_init[i].as_str()));
        assert(lua_init_lines(engine@.lua_init.take(i + 1)) =~= lua_init_lines(
            engine@.lua_init.take(i as int),
        ).push("--lua-init=@"@ + engine@.lua_init[i as int]));
        i = i + 1;
    }
    assert(engine@.lua_init.take(n as int) =~= engine@.lua_init);
    proof {
        let e = engine@;
        assert(views(lines@) =~= header_lines(e));
    }
    let ghost header = views(lines@);
    let m = config.strategies.len();
    let mut j: usize = 0;
    let mut enabled: usize = 0;
    assert(config@.strategies.take(0) =~= Seq::<StrategyView>::empty());
    while j < m
        invariant
            m == config@.strategies.len(),
            j <= m,
            enabled as nat == enabled_count(config@.strategies.take(j as int)),
            enabled <= j,
            views(lines@) == header + profiles(config@.strategies.take(j as int)),
        decreases m - j,
    {
        let strategy = &config.strategies[j];
        if strategy.enabled {
            push_profile_lines(&mut lines, strategy, enabled == 0);
            enabled = enabled + 1;
        }
        proof {
            let t = config@.strategies.take(j + 1);
            assert(t.drop_last() =~= config@.strategies.take(j as int));
            assert(t.last() == strategy@);
            assert(views(lines@) =~= header + profiles(t));
        }
        j = j + 1;
    }
    assert(config@.strategies.take(m as int) =~= config@.strategies);
    lines
}

/// Renders the parameter file passed to the engine as `@<file>`.
pub fn parameter_file(config: &Config, engine: &EngineOptions) -> (r: String)
    ensures
        r@ == parameter_file_text(config@, engine@),
{
    let lines = render_option_lines(config, engine);
    let mut out = join(&lines, "\n");
    push_str(&mut out, "\n");
    out
}

/// Arguments for any invocation. `@<file>` has to be the only argument — nfqws2 ignores anything
/// after it, so anything that would be a flag goes inside the file.
pub fn run_args(parameter_file_path: &str) -> (r: Vec<String>)
    ensures
        r@.len() == 1,
        r@[0]@ == "@"@ + parameter_file_path@,
{
    let mut arg = "@".to_owned();
    push_str(&mut arg, parameter_file_path);
    vec![arg]
}

// ---------------------------------------------------------------------------------------------
// The starter config
// ---------------------------------------------------------------------------------------------

pub open spec fn starter_actions() -> Seq<ActionView> {
    seq![
        ActionView {
            function: "fake"@,
            payload: seq!["tls_client_hello"@],
            args: args_insert(args_insert(Seq::empty(), "blob"@, "fake_default_tls"@), "badsum"@, ""@),
        },
        ActionView {
            function: "multidisorder"@,
            payload: seq!["tls_client_hello"@],
            args: args_insert(Seq::empty(), "pos"@, "1,midsld"@),
        },
    ]
}

/// A minimal working config: TLS on 443 with a fake ClientHello, falling back to `multidisorder`.
pub open spec fn starter_spec(name: Seq<char>) -> ConfigView {
    ConfigView {
        schema: crate::config::SCHEMA_VERSION,
        name,
        notes: None,
        compat: crate::config::NFQWS2_COMPAT_VER,
        strategies: seq![
            StrategyView {
                name: "https"@,
                enabled: true,
                filter: FilterView {
                    tcp: Some("443"@),
                    l7: seq!["tls"@],
                    ..Filter::default_view()
                },
                actions: starter_actions(),
            },
        ],
    }
}

/// A minimal working starting point, used by the first-run wizard and as the seed for
/// auto-configuration. TLS on 443 with a fake ClientHello, falling back to `multidisorder`.
pub fn starter_config(name: &str) -> (r: Config)
    ensures
        r@ == starter_spec(name@),
{
    let l7 = vec!["tls".to_owned()];
    assert(string_views(l7@) =~= seq!["tls"@]);
    let filter = Filter {
        l3: None,
        tcp: Some("443".to_owned()),
        udp: None,
        l7,
        hostlist: None,
        hostlist_exclude: None,
        hostlist_auto: None,
        ipset: None,
        ipset_exclude: None,
    };
    // `pos` is not optional in practice: without it multidisorder splits after one byte.
    let mut fake = Action::new("fake").with("blob", "fake_default_tls").with("badsum", "");
    let fake_payload = vec!["tls_client_hello".to_owned()];
    assert(string_views(fake_payload@) =~= seq!["tls_client_hello"@]);
    fake.payload = fake_payload;
    let mut split = Action::new("multidisorder").with("pos", "1,midsld");
    let split_payload = vec!["tls_client_hello".to_owned()];
    assert(string_views(split_payload@) =~= seq!["tls_client_hello"@]);
    split.payload = split_payload;
    let actions = vec![fake, split];
    assert(actions@.map_values(|a: Action| a@) =~= starter_actions());
    let https = Strategy { name: "https".to_owned(), enabled: true, filter, actions };
    let strategies = vec![https];
    let config = Config {
        schema: crate::config::SCHEMA_VERSION,
        name: name.to_owned(),
        notes: None,
        compat: crate::config::NFQWS2_COMPAT_VER,
        strategies,
    };
    assert(config@.strategies =~= starter_spec(name@).strategies);
    config
}

// ---------------------------------------------------------------------------------------------
// Laws
// ---------------------------------------------------------------------------------------------

/// An option line: empty, or starting with `--`, and holding no line break.
pub open spec fn option_line(l: Seq<char>) -> bool {
    unbroken(l) && (l.len() == 0 || is_prefix("--"@, l))
}

pub open spec fn all_option_lines(ls: Seq<Seq<char>>) -> bool {
    forall|i: int| 0 <= i < ls.len() ==> option_line(#[trigger] ls[i])
}

/// Engine options whose paths hold no line break.
pub open spec fn engine_is_clean(e: EngineOptionsView) -> bool {
    &&& unbroken(e.pidfile)
    &&& (e.debug_log matches Some(l) ==> unbroken(l))
    &&& forall|i: int| 0 <= i < e.lua_init.len() ==> unbroken(#[trigger] e.lua_init[i])
}

proof fn lemma_all_concat(a: Seq<Seq<char>>, b: Seq<Seq<char>>)
    requires
        all_option_lines(a),
        all_option_lines(b),
    ensures
        all_option_lines(a + b),
{
    assert forall|i: int| 0 <= i < (a + b).len() implies option_line(#[trigger] (a + b)[i]) by {
        if i < a.len() {
            assert((a + b)[i] == a[i]);
        } else {
            assert((a + b)[i] == b[i - a.len()]);
        }
    }
}

proof fn lemma_unbroken_concat(a: Seq<char>, b: Seq<char>)
    ensures
        unbroken(a + b) <==> unbroken(a) && unbroken(b),
{
    lemma_contains_concat(a, b, '\n');
    lemma_contains_concat(a, b, '\r');
}

/// `flag + value` is an option line when the flag is one and the value holds no line break.
/// A flag: starts with `--` and holds no line break.
pub open spec fn flag_ok(f: Seq<char>) -> bool {
    unbroken(f) && is_prefix("--"@, f)
}

proof fn lemma_flagged(flag: Seq<char>, value: Seq<char>)
    requires
        flag_ok(flag),
        unbroken(value),
    ensures
        option_line(flag + value),
        flag_ok(flag + value),
{
    reveal_strlit("--");
    lemma_unbroken_concat(flag, value);
    assert((flag + value).take(2) =~= flag.take(2));
}

proof fn lemma_token_unbroken(s: Seq<char>)
    requires
        is_token(s),
    ensures
        unbroken(s),
{
    if s.contains('\n') {
        let k = choose|k: int| 0 <= k < s.len() && s[k] == '\n';
        assert(crate::config::is_token_char(s[k]));
    }
    if s.contains('\r') {
        let k = choose|k: int| 0 <= k < s.len() && s[k] == '\r';
        assert(crate::config::is_token_char(s[k]));
    }
}

proof fn lemma_decimal_unbroken(n: nat)
    ensures
        unbroken(decimal(n)),
{
    lemma_decimal_digits(n);
    if decimal(n).contains('\n') {
        let k = choose|k: int| 0 <= k < decimal(n).len() && decimal(n)[k] == '\n';
        assert(is_digit(decimal(n)[k]));
    }
    if decimal(n).contains('\r') {
        let k = choose|k: int| 0 <= k < decimal(n).len() && decimal(n)[k] == '\r';
        assert(is_digit(decimal(n)[k]));
    }
}

proof fn lemma_tokens_joined(list: Seq<Seq<char>>)
    requires
        forall|i: int| 0 <= i < list.len() ==> is_token(#[trigger] list[i]),
    ensures
        unbroken(seq_join(list, ","@)),
{
    reveal_strlit(",");
    assert forall|i: int| 0 <= i < list.len() implies !(#[trigger] list[i]).contains('\n') by {
        lemma_token_unbroken(list[i]);
    }
    assert forall|i: int| 0 <= i < list.len() implies !(#[trigger] list[i]).contains('\r') by {
        lemma_token_unbroken(list[i]);
    }
    lemma_join_free_of(list, ","@, '\n');
    lemma_join_free_of(list, ","@, '\r');
}

proof fn lemma_literal_flags()
    ensures
        flag_ok("--intercept=0"@),
        flag_ok("--qnum="@),
        flag_ok("--pidfile="@),
        flag_ok("--debug=@"@),
        flag_ok("--lua-init=@"@),
        flag_ok("--name"@),
        flag_ok("--new"@),
        flag_ok("--filter-l3"@),
        flag_ok("--filter-tcp"@),
        flag_ok("--filter-udp"@),
        flag_ok("--hostlist"@),
        flag_ok("--hostlist-exclude"@),
        flag_ok("--hostlist-auto"@),
        flag_ok("--ipset"@),
        flag_ok("--ipset-exclude"@),
        flag_ok("--filter-l7="@),
        flag_ok("--payload="@),
        flag_ok("--lua-desync="@),
        unbroken("="@),
        unbroken(":"@),
{
    reveal_strlit("--");
    reveal_strlit("--intercept=0");
    reveal_strlit("--qnum=");
    reveal_strlit("--pidfile=");
    reveal_strlit("--debug=@");
    reveal_strlit("--lua-init=@");
    reveal_strlit("--name");
    reveal_strlit("--new");
    reveal_strlit("--filter-l3");
    reveal_strlit("--filter-tcp");
    reveal_strlit("--filter-udp");
    reveal_strlit("--hostlist");
    reveal_strlit("--hostlist-exclude");
    reveal_strlit("--hostlist-auto");
    reveal_strlit("--ipset");
    reveal_strlit("--ipset-exclude");
    reveal_strlit("--filter-l7=");
    reveal_strlit("--payload=");
    reveal_strlit("--lua-desync=");
    reveal_strlit("=");
    reveal_strlit(":");
    assert("--intercept=0"@.take(2) =~= "--"@);
    assert("--qnum="@.take(2) =~= "--"@);
    assert("--pidfile="@.take(2) =~= "--"@);
    assert("--debug=@"@.take(2) =~= "--"@);
    assert("--lua-init=@"@.take(2) =~= "--"@);
    assert("--name"@.take(2) =~= "--"@);
    assert("--new"@.take(2) =~= "--"@);
    assert("--filter-l3"@.take(2) =~= "--"@);
    assert("--filter-tcp"@.take(2) =~= "--"@);
    assert("--filter-udp"@.take(2) =~= "--"@);
    assert("--hostlist"@.take(2) =~= "--"@);
    assert("--hostlist-exclude"@.take(2) =~= "--"@);
    assert("--hostlist-auto"@.take(2) =~= "--"@);
    assert("--ipset"@.take(2) =~= "--"@);
    assert("--ipset-exclude"@.take(2) =~= "--"@);
    assert("--filter-l7="@.take(2) =~= "--"@);
    assert("--payload="@.take(2) =~= "--"@);
    assert("--lua-desync="@.take(2) =~= "--"@);
}

proof fn lemma_header_lines(e: EngineOptionsView)
    requires
        engine_is_clean(e),
    ensures
        all_option_lines(header_lines(e)),
{
    lemma_literal_flags();
    let a: Seq<Seq<char>> = if e.validate {
        reveal_strlit("--");
        reveal_strlit("--intercept=0");
        seq!["--intercept=0"@]
    } else {
        Seq::empty()
    };
    let b: Seq<Seq<char>> = if e.platform == Platform::Linux {
        lemma_decimal_unbroken(e.queue_num as nat);
        lemma_flagged("--qnum="@, decimal(e.queue_num as nat));
        seq!["--qnum="@ + decimal(e.queue_num as nat)]
    } else {
        Seq::empty()
    };
    let c: Seq<Seq<char>> = if e.pidfile.len() > 0 {
        lemma_flagged("--pidfile="@, e.pidfile);
        seq!["--pidfile="@ + e.pidfile]
    } else {
        Seq::empty()
    };
    let d: Seq<Seq<char>> = match e.debug_log {
        Some(log) => {
            lemma_flagged("--debug=@"@, log);
            seq!["--debug=@"@ + log]
        },
        None => Seq::empty(),
    };
    let l = lua_init_lines(e.lua_init);
    assert forall|i: int| 0 <= i < l.len() implies option_line(#[trigger] l[i]) by {
        lemma_flagged("--lua-init=@"@, e.lua_init[i]);
    }
    lemma_all_concat(a, b);
    lemma_all_concat(a + b, c);
    lemma_all_concat(a + b + c, d);
    lemma_all_concat(a + b + c + d, l);
}

proof fn lemma_opt_line(flag: Seq<char>, value: Option<Seq<char>>, field: Seq<char>)
    requires
        flag_ok(flag),
        opt_value_error(field, value) is None,
    ensures
        all_option_lines(opt_line(flag, value)),
{
    if let Some(v) = value {
        lemma_literal_flags();
        lemma_unbroken_concat("="@, v);
        lemma_flagged(flag, "="@ + v);
        assert(flag + "="@ + v =~= flag + ("="@ + v));
    }
}

proof fn lemma_filter_lines(f: FilterView)
    requires
        filter_error(f) is None,
    ensures
        all_option_lines(filter_lines(f)),
{
    lemma_literal_flags();
    let fixed = seq![
        opt_value_error("filter.l3"@, f.l3),
        opt_value_error("filter.tcp"@, f.tcp),
        opt_value_error("filter.udp"@, f.udp),
        opt_value_error("filter.hostlist"@, f.hostlist),
        opt_value_error("filter.hostlist_exclude"@, f.hostlist_exclude),
        opt_value_error("filter.hostlist_auto"@, f.hostlist_auto),
        opt_value_error("filter.ipset"@, f.ipset),
        opt_value_error("filter.ipset_exclude"@, f.ipset_exclude),
    ];
    let l7 = f.l7.map_values(|p: Seq<char>| token_error("filter.l7"@, p));
    lemma_first_error_none(fixed);
    lemma_first_error_none(l7);
    assert(fixed[0] is None && fixed[1] is None && fixed[2] is None && fixed[3] is None);
    assert(fixed[4] is None && fixed[5] is None && fixed[6] is None && fixed[7] is None);
    lemma_opt_line("--filter-l3"@, f.l3, "filter.l3"@);
    lemma_opt_line("--filter-tcp"@, f.tcp, "filter.tcp"@);
    lemma_opt_line("--filter-udp"@, f.udp, "filter.udp"@);
    lemma_opt_line("--hostlist"@, f.hostlist, "filter.hostlist"@);
    lemma_opt_line("--hostlist-exclude"@, f.hostlist_exclude, "filter.hostlist_exclude"@);
    lemma_opt_line("--hostlist-auto"@, f.hostlist_auto, "filter.hostlist_auto"@);
    lemma_opt_line("--ipset"@, f.ipset, "filter.ipset"@);
    lemma_opt_line("--ipset-exclude"@, f.ipset_exclude, "filter.ipset_exclude"@);
    let l7_lines: Seq<Seq<char>> = if f.l7.len() > 0 {
        assert forall|i: int| 0 <= i < f.l7.len() implies is_token(#[trigger] f.l7[i]) by {
            assert(l7[i] is None);
        }
        lemma_tokens_joined(f.l7);
        lemma_flagged("--filter-l7="@, seq_join(f.l7, ","@));
        seq!["--filter-l7="@ + seq_join(f.l7, ","@)]
    } else {
        Seq::empty()
    };
    assert(l7_lines == l7_line(f.l7));
    let p1 = opt_line("--filter-l3"@, f.l3);
    let p2 = p1 + opt_line("--filter-tcp"@, f.tcp);
    let p3 = p2 + opt_line("--filter-udp"@, f.udp);
    let p4 = p3 + l7_lines;
    let p5 = p4 + opt_line("--hostlist"@, f.hostlist);
    let p6 = p5 + opt_line("--hostlist-exclude"@, f.hostlist_exclude);
    let p7 = p6 + opt_line("--hostlist-auto"@, f.hostlist_auto);
    let p8 = p7 + opt_line("--ipset"@, f.ipset);
    lemma_all_concat(p1, opt_line("--filter-tcp"@, f.tcp));
    lemma_all_concat(p2, opt_line("--filter-udp"@, f.udp));
    lemma_all_concat(p3, l7_lines);
    lemma_all_concat(p4, opt_line("--hostlist"@, f.hostlist));
    lemma_all_concat(p5, opt_line("--hostlist-exclude"@, f.hostlist_exclude));
    lemma_all_concat(p6, opt_line("--hostlist-auto"@, f.hostlist_auto));
    lemma_all_concat(p7, opt_line("--ipset"@, f.ipset));
    lemma_all_concat(p8, opt_line("--ipset-exclude"@, f.ipset_exclude));
}

proof fn lemma_args_text(args: Seq<(Seq<char>, Seq<char>)>)
    requires
        forall|i: int|
            0 <= i < args.len() ==> arg_error((#[trigger] args[i]).0, args[i].1) is None,
    ensures
        unbroken(args_text(args)),
    decreases args.len(),
{
    if args.len() > 0 {
        lemma_literal_flags();
        lemma_args_text(args.drop_last());
        let (k, v) = args.last();
        assert(arg_error(args[args.len() - 1].0, args[args.len() - 1].1) is None);
        assert(is_token(k));
        lemma_token_unbroken(k);
        assert(is_safe_value(v));
        lemma_unbroken_concat(":"@, k);
        lemma_unbroken_concat(":"@ + k, "="@);
        lemma_unbroken_concat(":"@ + k + "="@, v);
        lemma_unbroken_concat(args_text(args.drop_last()), arg_text(k, v));
    }
}

proof fn lemma_action_lines(a: ActionView)
    requires
        action_error(a) is None,
    ensures
        all_option_lines(action_text_lines(a)),
{
    lemma_literal_flags();
    let payload = a.payload.map_values(|p: Seq<char>| token_error("action payload"@, p));
    let args = a.args.map_values(|e: (Seq<char>, Seq<char>)| arg_error(e.0, e.1));
    lemma_first_error_none(payload);
    lemma_first_error_none(args);
    let first: Seq<Seq<char>> = if a.payload.len() > 0 {
        assert forall|i: int| 0 <= i < a.payload.len() implies is_token(#[trigger] a.payload[i]) by {
            assert(payload[i] is None);
        }
        lemma_tokens_joined(a.payload);
        lemma_flagged("--payload="@, seq_join(a.payload, ","@));
        seq!["--payload="@ + seq_join(a.payload, ","@)]
    } else {
        Seq::empty()
    };
    assert forall|i: int| 0 <= i < a.args.len() implies arg_error(
        (#[trigger] a.args[i]).0,
        a.args[i].1,
    ) is None by {
        assert(args[i] is None);
    }
    lemma_args_text(a.args);
    lemma_token_unbroken(a.function);
    lemma_unbroken_concat(a.function, args_text(a.args));
    lemma_flagged("--lua-desync="@, a.function + args_text(a.args));
    assert(desync_line(a) =~= "--lua-desync="@ + (a.function + args_text(a.args)));
    lemma_all_concat(first, seq![desync_line(a)]);
}

proof fn lemma_actions_lines(acts: Seq<ActionView>)
    requires
        forall|i: int| 0 <= i < acts.len() ==> action_error(#[trigger] acts[i]) is None,
    ensures
        all_option_lines(actions_lines(acts)),
    decreases acts.len(),
{
    if acts.len() > 0 {
        lemma_actions_lines(acts.drop_last());
        assert(action_error(acts[acts.len() - 1]) is None);
        lemma_action_lines(acts.last());
        lemma_all_concat(actions_lines(acts.drop_last()), action_text_lines(acts.last()));
    }
}

proof fn lemma_profile_lines(s: StrategyView, first: bool)
    requires
        strategy_error(s) is None,
    ensures
        all_option_lines(profile_lines(s, first)),
{
    lemma_literal_flags();
    let acts = s.actions.map_values(|a: ActionView| action_error(a));
    lemma_first_error_none(acts);
    assert forall|i: int| 0 <= i < s.actions.len() implies action_error(
        #[trigger] s.actions[i],
    ) is None by {
        assert(acts[i] is None);
    }
    lemma_token_unbroken(s.name);
    let flag = if first {
        "--name"@
    } else {
        "--new"@
    };
    lemma_unbroken_concat("="@, s.name);
    lemma_flagged(flag, "="@ + s.name);
    assert(flag + "="@ + s.name =~= flag + ("="@ + s.name));
    let named = seq![Seq::<char>::empty(), flag + "="@ + s.name];
    assert(option_line(named[0]));
    assert(all_option_lines(named));
    lemma_filter_lines(s.filter);
    lemma_actions_lines(s.actions);
    lemma_all_concat(named, filter_lines(s.filter));
    lemma_all_concat(named + filter_lines(s.filter), actions_lines(s.actions));
}

proof fn lemma_profiles(ss: Seq<StrategyView>)
    requires
        forall|i: int| 0 <= i < ss.len() ==> strategy_error(#[trigger] ss[i]) is None,
    ensures
        all_option_lines(profiles(ss)),
    decreases ss.len(),
{
    if ss.len() > 0 {
        lemma_profiles(ss.drop_last());
        assert(strategy_error(ss[ss.len() - 1]) is None);
        let last = if ss.last().enabled {
            lemma_profile_lines(ss.last(), enabled_count(ss.drop_last()) == 0);
            profile_lines(ss.last(), enabled_count(ss.drop_last()) == 0)
        } else {
            Seq::empty()
        };
        lemma_all_concat(profiles(ss.drop_last()), last);
    }
}

/// One line, one option: for a config that passes validation and engine paths without line
/// breaks, every rendered line is empty or starts with `--`, holds no line break, and reading the
/// parameter file back line by line gives exactly those lines.
pub proof fn rendered_lines_are_single_options(c: ConfigView, e: EngineOptionsView)
    requires
        config_error(c) is None,
        engine_is_clean(e),
    ensures
        all_option_lines(render_lines(c, e)),
        render_lines(c, e).len() > 0 ==> lines(parameter_file_text(c, e)) == render_lines(c, e),
{
    valid_means_every_field_checked(c);
    lemma_header_lines(e);
    lemma_profiles(c.strategies);
    lemma_all_concat(header_lines(e), profiles(c.strategies));
    let l = render_lines(c, e);
    if l.len() > 0 {
        assert forall|i: int| 0 <= i < l.len() implies unbroken(#[trigger] l[i]) by {
            assert(option_line(l[i]));
        }
        lemma_lines_of_joined(l);
    }
}

/// Engine options whose paths hold no newline. A carriage return may stand in them.
pub open spec fn engine_has_no_newline(e: EngineOptionsView) -> bool {
    &&& !e.pidfile.contains('\n')
    &&& (e.debug_log matches Some(l) ==> !l.contains('\n'))
    &&& forall|i: int| 0 <= i < e.lua_init.len() ==> !(#[trigger] e.lua_init[i]).contains('\n')
}

/// A line as read back from the parameter file: empty, or starting with `--`, and holding no
/// newline.
pub open spec fn read_option_line(l: Seq<char>) -> bool {
    !l.contains('\n') && (l.len() == 0 || is_prefix("--"@, l))
}

/// A header line when a path may hold a carriage return: no newline, and empty or a flag of at
/// least three characters followed by the value.
spec fn loose_option_line(l: Seq<char>) -> bool {
    !l.contains('\n') && (l.len() == 0 || (l.len() >= 3 && is_prefix("--"@, l)))
}

spec fn all_loose(ls: Seq<Seq<char>>) -> bool {
    forall|i: int| 0 <= i < ls.len() ==> loose_option_line(#[trigger] ls[i])
}

proof fn lemma_all_loose_concat(a: Seq<Seq<char>>, b: Seq<Seq<char>>)
    requires
        all_loose(a),
        all_loose(b),
    ensures
        all_loose(a + b),
{
    assert forall|i: int| 0 <= i < (a + b).len() implies loose_option_line(#[trigger] (a + b)[i]) by {
        if i < a.len() {
            assert((a + b)[i] == a[i]);
        } else {
            assert((a + b)[i] == b[i - a.len()]);
        }
    }
}

proof fn lemma_loose_flagged(flag: Seq<char>, value: Seq<char>)
    requires
        flag_ok(flag),
        flag.len() >= 3,
        !value.contains('\n'),
    ensures
        loose_option_line(flag + value),
{
    reveal_strlit("--");
    lemma_contains_concat(flag, value, '\n');
    assert((flag + value).take(2) =~= flag.take(2));
}

proof fn lemma_header_lines_loose(e: EngineOptionsView)
    requires
        engine_has_no_newline(e),
    ensures
        all_loose(header_lines(e)),
{
    lemma_literal_flags();
    reveal_strlit("--intercept=0");
    reveal_strlit("--qnum=");
    reveal_strlit("--pidfile=");
    reveal_strlit("--debug=@");
    reveal_strlit("--lua-init=@");
    let a: Seq<Seq<char>> = if e.validate {
        lemma_loose_flagged("--intercept=0"@, Seq::empty());
        assert("--intercept=0"@ + Seq::<char>::empty() =~= "--intercept=0"@);
        seq!["--intercept=0"@]
    } else {
        Seq::empty()
    };
    let b: Seq<Seq<char>> = if e.platform == Platform::Linux {
        lemma_decimal_unbroken(e.queue_num as nat);
        lemma_loose_flagged("--qnum="@, decimal(e.queue_num as nat));
        seq!["--qnum="@ + decimal(e.queue_num as nat)]
    } else {
        Seq::empty()
    };
    let c: Seq<Seq<char>> = if e.pidfile.len() > 0 {
        lemma_loose_flagged("--pidfile="@, e.pidfile);
        seq!["--pidfile="@ + e.pidfile]
    } else {
        Seq::empty()
    };
    let d: Seq<Seq<char>> = match e.debug_log {
        Some(log) => {
            lemma_loose_flagged("--debug=@"@, log);
            seq!["--debug=@"@ + log]
        },
        None => Seq::empty(),
    };
    let l = lua_init_lines(e.lua_init);
    assert forall|i: int| 0 <= i < l.len() implies loose_option_line(#[trigger] l[i]) by {
        lemma_loose_flagged("--lua-init=@"@, e.lua_init[i]);
    }
    lemma_all_loose_concat(a, b);
    lemma_all_loose_concat(a + b, c);
    lemma_all_loose_concat(a + b + c, d);
    lemma_all_loose_concat(a + b + c + d, l);
}

proof fn lemma_strip_loose(l: Seq<char>)
    requires
        loose_option_line(l),
    ensures
        read_option_line(strip_cr(l)),
{
    reveal_strlit("--");
    if l.len() > 0 && l.last() == '\r' {
        let d = l.drop_last();
        assert(d.take(2) =~= l.take(2));
        if d.contains('\n') {
            let k = choose|k: int| 0 <= k < d.len() && d[k] == '\n';
            assert(l[k] == '\n');
        }
    }
}

/// One line, one option, as the file is read back: for a config that passes validation and
/// engine paths without a newline (a carriage return may stand in them), every line that the
/// parameter file reads back as is empty or starts with `--`, and the file ends with a newline.
pub proof fn read_back_lines_are_single_options(c: ConfigView, e: EngineOptionsView)
    requires
        config_error(c) is None,
        engine_has_no_newline(e),
    ensures
        forall|i: int|
            0 <= i < lines(parameter_file_text(c, e)).len() ==> read_option_line(
                #[trigger] lines(parameter_file_text(c, e))[i],
            ),
        parameter_file_text(c, e).last() == '\n',
{
    reveal_strlit("\n");
    valid_means_every_field_checked(c);
    lemma_header_lines_loose(e);
    lemma_profiles(c.strategies);
    let h = header_lines(e);
    let p = profiles(c.strategies);
    let l = render_lines(c, e);
    let t = parameter_file_text(c, e);
    assert(t.last() == '\n');
    if l.len() > 0 {
        assert forall|i: int| 0 <= i < l.len() implies !(#[trigger] l[i]).contains('\n') by {
            if i < h.len() {
                assert(l[i] == h[i]);
                assert(loose_option_line(h[i]));
            } else {
                assert(l[i] == p[i - h.len()]);
                assert(option_line(p[i - h.len()]));
            }
        }
        lemma_lines_of_joined_stripped(l);
        assert forall|i: int| 0 <= i < lines(t).len() implies read_option_line(
            #[trigger] lines(t)[i],
        ) by {
            assert(lines(t)[i] == strip_cr(l[i]));
            if i < h.len() {
                assert(l[i] == h[i]);
                lemma_strip_loose(h[i]);
            } else {
                let q = p[i - h.len()];
                assert(l[i] == q);
                assert(option_line(q));
                if q.len() > 0 {
                    assert(q.last() == q[q.len() - 1]);
                }
                assert(strip_cr(q) == q);
            }
        }
    } else {
        assert(t =~= seq!['\n']);
        lemma_find_char(t, '\n');
        assert(find_char(t, '\n') == 0);
        assert(t.take(0) =~= Seq::<char>::empty());
        assert(t.skip(1) =~= Seq::<char>::empty());
        assert(lines(t.skip(1)) =~= Seq::<Seq<char>>::empty());
        assert(lines(t) =~= seq![strip_cr(Seq::<char>::empty())]);
        assert(read_option_line(strip_cr(Seq::<char>::empty())));
    }
}

proof fn lemma_enabled_count_skip_disabled(ss: Seq<StrategyView>, i: int)
    requires
        0 <= i < ss.len(),
        !ss[i].enabled,
    ensures
        enabled_count(ss) == enabled_count(ss.remove(i)),
    decreases ss.len(),
{
    if i == ss.len() - 1 {
        assert(ss.remove(i) =~= ss.drop_last());
    } else {
        lemma_enabled_count_skip_disabled(ss.drop_last(), i);
        assert(ss.remove(i).drop_last() =~= ss.drop_last().remove(i));
        assert(ss.remove(i).last() == ss.last());
    }
}

proof fn lemma_profiles_skip_disabled(ss: Seq<StrategyView>, i: int)
    requires
        0 <= i < ss.len(),
        !ss[i].enabled,
    ensures
        profiles(ss) == profiles(ss.remove(i)),
    decreases ss.len(),
{
    if i == ss.len() - 1 {
        assert(ss.remove(i) =~= ss.drop_last());
    } else {
        lemma_profiles_skip_disabled(ss.drop_last(), i);
        lemma_enabled_count_skip_disabled(ss.drop_last(), i);
        assert(ss.remove(i).drop_last() =~= ss.drop_last().remove(i));
        assert(ss.remove(i).last() == ss.last());
    }
}

/// A disabled strategy is not rendered: removing it leaves the parameter file unchanged.
pub proof fn disabled_strategies_are_not_rendered(c: ConfigView, e: EngineOptionsView, i: int)
    requires
        0 <= i < c.strategies.len(),
        !c.strategies[i].enabled,
    ensures
        parameter_file_text(c, e) == parameter_file_text(
            ConfigView { strategies: c.strategies.remove(i), ..c },
            e,
        ),
{
    lemma_profiles_skip_disabled(c.strategies, i);
}

/// The queue number is Linux-only: elsewhere it does not change the parameter file.
pub proof fn queue_number_is_linux_only(c: ConfigView, e: EngineOptionsView, queue_num: u16)
    requires
        e.platform != Platform::Linux,
    ensures
        parameter_file_text(c, e) == parameter_file_text(c, EngineOptionsView { queue_num, ..e }),
{
}

/// A validation render opens with `--intercept=0`, so the engine checks the file instead of
/// intercepting, and the engine is always run with the file as its only argument.
pub proof fn validation_goes_in_the_file(c: ConfigView, e: EngineOptionsView)
    requires
        e.validate,
    ensures
        render_lines(c, e)[0] == "--intercept=0"@,
{
}

/// The lines of one action: its payload filter, when it has one, then its `--lua-desync` call.
pub fn action_lines(action: &Action) -> (r: Vec<String>)
    ensures
        views(r@) == action_text_lines(action@),
{
    let mut lines: Vec<String> = Vec::new();
    push_action_lines(&mut lines, action);
    assert(views(lines@) =~= action_text_lines(action@));
    lines
}


/// How many header lines come before the Lua scripts: the validation switch, the queue number,
/// the pidfile and the debug log, each when it applies.
pub open spec fn lines_before_scripts(e: EngineOptionsView) -> int {
    (if e.validate { 1int } else { 0int }) + (if e.platform == Platform::Linux { 1int } else { 0int })
        + (if e.pidfile.len() > 0 { 1int } else { 0int }) + (if e.debug_log is Some { 1int } else { 0int })
}

/// Every Lua script is loaded, in the order given: after the lines before them, the parameter
/// file holds one `--lua-init=@<script>` line for each script, the k-th for the k-th script, and
/// the profiles follow directly.
pub proof fn every_lua_script_is_loaded_in_order(c: ConfigView, e: EngineOptionsView)
    ensures
        render_lines(c, e).len() == lines_before_scripts(e) + e.lua_init.len() + profiles(
            c.strategies,
        ).len(),
        forall|k: int|
            0 <= k < e.lua_init.len() ==> #[trigger] render_lines(c, e)[lines_before_scripts(e) + k]
                == "--lua-init=@"@ + e.lua_init[k],
        render_lines(c, e).skip(lines_before_scripts(e) + e.lua_init.len()) == profiles(c.strategies),
{
    let a: Seq<Seq<char>> = if e.validate {
        seq!["--intercept=0"@]
    } else {
        Seq::empty()
    };
    let b: Seq<Seq<char>> = if e.platform == Platform::Linux {
        seq!["--qnum="@ + decimal(e.queue_num as nat)]
    } else {
        Seq::empty()
    };
    let p: Seq<Seq<char>> = if e.pidfile.len() > 0 {
        seq!["--pidfile="@ + e.pidfile]
    } else {
        Seq::empty()
    };
    let d: Seq<Seq<char>> = match e.debug_log {
        Some(log) => seq!["--debug=@"@ + log],
        None => Seq::empty(),
    };
    let before = a + b + p + d;
    let l = lua_init_lines(e.lua_init);
    assert(header_lines(e) == before + l);
    assert(before.len() == lines_before_scripts(e));
    let r = render_lines(c, e);
    assert(r == before + l + profiles(c.strategies));
    assert forall|k: int| 0 <= k < e.lua_init.len() implies #[trigger] r[lines_before_scripts(e) + k]
        == "--lua-init=@"@ + e.lua_init[k] by {
        assert(r[before.len() + k] == l[k]);
    }
    assert(r.skip(lines_before_scripts(e) + e.lua_init.len()) =~= profiles(c.strategies));
}
} // verus!
