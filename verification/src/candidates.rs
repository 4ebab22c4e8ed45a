//! Strategies to try, in the order worth trying them.
//!
//! The order is a heuristic and nothing more: it decides how *fast* auto-configuration finds an
//! answer, never *whether* the answer is right. What a candidate is judged on is the reachability
//! check run while it is applied, so a badly ranked list costs time and a wrong one costs nothing —
//! the engine's own check refuses a candidate it cannot load before it reaches the network.

use crate::args::{args_insert, args_keys, args_lookup, lemma_insert_lookup};
use crate::render::{
    action_text_lines, actions_lines, args_text, desync_line, filter_lines, header_lines, l7_line,
    lua_init_lines, opt_line, profiles, render_lines, EngineOptionsView,
};
use crate::registry::{
    action_warnings, function_table, is_known_function, lint_spec, lookup_function,
    strategies_warnings, strategy_warnings, Category, Platform, WarningView,
};
use crate::config::{
    action_error, arg_error, compat_error, config_error, filter_error, lemma_first_error_none,
    opt_value_error, strategy_error, token_error, valid_means_every_field_checked, is_bad_name, is_safe_value, is_token, is_token_char, string_views, ActionView, Config, ConfigView, Filter, FilterView, Strategy, StrategyView,
    Action, NFQWS2_COMPAT_VER, SCHEMA_VERSION,
};
use crate::text::{
    contains_seq, contains_str, copy_str, is_digit, is_prefix, is_ws, lemma_decimal_digits, lemma_contains_concat, lemma_join_front, decimal, decimal_string, digit_value, digits_value, is_ascii_alnum,
    ascii_alnum,
    join, lemma_split_len, parse_u32, parse_u32_str, push_char, push_str, seq_join, split_on,
    split_str, str_eq, lex_lt,
    views,
};
use vstd::prelude::*;
use vstd::string::*;

verus! {

// ---------------------------------------------------------------------------------------------
// The sweep's ingredients
// ---------------------------------------------------------------------------------------------

/// Split positions, in the order zapret2's own `blockcheck2` sweeps them. A strategy is only as
/// good as where it cuts, and `multisplit` with no `pos` splits after one byte, which almost
/// nothing falls for.
pub open spec fn tls_positions() -> Seq<Seq<char>> {
    seq![
        "1,midsld"@,
        "midsld"@,
        "sniext+1"@,
        "sniext+4"@,
        "host+1"@,
        "2"@,
        "1"@,
        "1,midsld,1220"@,
        "1,sniext+1,host+1,midsld-2,midsld,midsld+2,endhost-1"@,
    ]
}

/// The positions worth combining with something else. Sweeping every fooling against all nine
/// would be several hundred candidates.
pub open spec fn tls_key_positions() -> Seq<Seq<char>> {
    seq!["1,midsld"@, "midsld"@, "sniext+1"@]
}

pub open spec fn http_positions() -> Seq<Seq<char>> {
    seq!["method+2,midsld"@, "midsld"@, "method+2"@]
}

/// `FOOLINGS46_TCP` from blockcheck2's `def.inc`: ways to build a packet the DPI accepts and the
/// server throws away. Each is a name and the arguments it adds to an action.
pub open spec fn foolings() -> Seq<(Seq<char>, Seq<(Seq<char>, Seq<char>)>)> {
    seq![
        ("md5"@, seq![("tcp_md5"@, ""@)]),
        ("badsum"@, seq![("badsum"@, ""@)]),
        ("seqback"@, seq![("tcp_seq"@, "-3000"@)]),
        ("seqfwd"@, seq![("tcp_seq"@, "1000000"@)]),
        ("ackback"@, seq![("tcp_ack"@, "-66000"@), ("tcp_ts_up"@, ""@)]),
        ("tsback"@, seq![("tcp_ts"@, "-1000"@)]),
        ("noack"@, seq![("tcp_flags_unset"@, "ACK"@)]),
        ("syn"@, seq![("tcp_flags_set"@, "SYN"@)]),
    ]
}

pub open spec fn strs(v: Seq<&str>) -> Seq<Seq<char>> {
    v.map_values(|s: &str| s@)
}

pub open spec fn pair_strs(v: Seq<(&str, &str)>) -> Seq<(Seq<char>, Seq<char>)> {
    v.map_values(|p: (&str, &str)| (p.0@, p.1@))
}

pub open spec fn fooling_strs(v: Seq<(&str, Vec<(&str, &str)>)>) -> Seq<
    (Seq<char>, Seq<(Seq<char>, Seq<char>)>),
> {
    v.map_values(|f: (&str, Vec<(&str, &str)>)| (f.0@, pair_strs(f.1@)))
}

fn tls_position_list() -> (r: Vec<&'static str>)
    ensures
        strs(r@) == tls_positions(),
{
    let r = vec![
        "1,midsld",
        "midsld",
        "sniext+1",
        "sniext+4",
        "host+1",
        "2",
        "1",
        "1,midsld,1220",
        "1,sniext+1,host+1,midsld-2,midsld,midsld+2,endhost-1",
    ];
    assert(strs(r@) =~= tls_positions());
    r
}

fn tls_key_position_list() -> (r: Vec<&'static str>)
    ensures
        strs(r@) == tls_key_positions(),
{
    let r = vec!["1,midsld", "midsld", "sniext+1"];
    assert(strs(r@) =~= tls_key_positions());
    r
}

fn http_position_list() -> (r: Vec<&'static str>)
    ensures
        strs(r@) == http_positions(),
{
    let r = vec!["method+2,midsld", "midsld", "method+2"];
    assert(strs(r@) =~= http_positions());
    r
}

fn fooling_list() -> (r: Vec<(&'static str, Vec<(&'static str, &'static str)>)>)
    ensures
        fooling_strs(r@) == foolings(),
{
    let md5 = vec![("tcp_md5", "")];
    let badsum = vec![("badsum", "")];
    let seqback = vec![("tcp_seq", "-3000")];
    let seqfwd = vec![("tcp_seq", "1000000")];
    let ackback = vec![("tcp_ack", "-66000"), ("tcp_ts_up", "")];
    let tsback = vec![("tcp_ts", "-1000")];
    let noack = vec![("tcp_flags_unset", "ACK")];
    let syn = vec![("tcp_flags_set", "SYN")];
    assert(pair_strs(md5@) =~= seq![("tcp_md5"@, ""@)]);
    assert(pair_strs(badsum@) =~= seq![("badsum"@, ""@)]);
    assert(pair_strs(seqback@) =~= seq![("tcp_seq"@, "-3000"@)]);
    assert(pair_strs(seqfwd@) =~= seq![("tcp_seq"@, "1000000"@)]);
    assert(pair_strs(ackback@) =~= seq![("tcp_ack"@, "-66000"@), ("tcp_ts_up"@, ""@)]);
    assert(pair_strs(tsback@) =~= seq![("tcp_ts"@, "-1000"@)]);
    assert(pair_strs(noack@) =~= seq![("tcp_flags_unset"@, "ACK"@)]);
    assert(pair_strs(syn@) =~= seq![("tcp_flags_set"@, "SYN"@)]);
    let r = vec![
        ("md5", md5),
        ("badsum", badsum),
        ("seqback", seqback),
        ("seqfwd", seqfwd),
        ("ackback", ackback),
        ("tsback", tsback),
        ("noack", noack),
        ("syn", syn),
    ];
    assert(fooling_strs(r@) =~= foolings());
    r
}

// ---------------------------------------------------------------------------------------------
// Names and descriptions
// ---------------------------------------------------------------------------------------------

/// Every run of characters that are not ASCII letters or digits becomes one dash; `dashed` says
/// whether the text so far ends in one (or is empty, where no dash may lead).
pub open spec fn squash(s: Seq<char>, dashed: bool) -> Seq<char>
    decreases s.len(),
{
    if s.len() == 0 {
        Seq::empty()
    } else if is_ascii_alnum(s[0]) {
        seq![s[0]] + squash(s.skip(1), false)
    } else if !dashed {
        seq!['-'] + squash(s.skip(1), true)
    } else {
        squash(s.skip(1), true)
    }
}

/// `s` without the dashes it ends in.
pub open spec fn trim_dashes(s: Seq<char>) -> Seq<char>
    decreases s.len(),
{
    if s.len() > 0 && s.last() == '-' {
        trim_dashes(s.drop_last())
    } else {
        s
    }
}

/// A config name is a file stem and an nfqws2 profile name, so a position like
/// `1,sniext+1,midsld-2` cannot go in raw: the parts joined by dashes, each run of other
/// characters squashed to one dash, none leading or trailing.
pub open spec fn name_of(parts: Seq<Seq<char>>) -> Seq<char> {
    trim_dashes(squash(seq_join(parts, "-"@), true))
}

fn name(parts: Vec<String>) -> (r: String)
    ensures
        r@ == name_of(views(parts@)),
{
    let joined = join(&parts, "-");
    let n = joined.as_str().unicode_len();
    let mut out = String::new();
    let mut dashed = true;
    let mut i: usize = 0;
    assert(joined@.skip(0) =~= joined@);
    while i < n
        invariant
            n == joined@.len(),
            i <= n,
            out@ + squash(joined@.skip(i as int), dashed) == squash(joined@, true),
        decreases n - i,
    {
        let c = joined.as_str().get_char(i);
        assert(joined@.skip(i as int)[0] == c);
        assert(joined@.skip(i as int).skip(1) =~= joined@.skip(i + 1));
        if ascii_alnum(c) {
            push_char(&mut out, c);
            dashed = false;
        } else if !dashed {
            push_char(&mut out, '-');
            dashed = true;
        }
        proof {
            assert(out@ + squash(joined@.skip(i + 1), dashed) =~= squash(joined@, true));
        }
        i = i + 1;
    }
    assert(joined@.skip(n as int) =~= Seq::<char>::empty());
    assert(out@ =~= squash(joined@, true));
    let mut end = out.as_str().unicode_len();
    assert(out@.take(end as int) =~= out@);
    while end > 0 && out.as_str().get_char(end - 1) == '-'
        invariant
            end <= out@.len(),
            trim_dashes(out@.take(end as int)) == trim_dashes(out@),
        decreases end,
    {
        assert(out@.take(end as int).drop_last() =~= out@.take(end - 1));
        end = end - 1;
    }
    let r = out.as_str().substring_char(0, end).to_owned();
    assert(r@ =~= out@.take(end as int));
    r
}

/// Turns a position marker into something a user can read. Anything unrecognised is shown as is,
/// which is better than pretending to explain it.
pub open spec fn describe_spec(pos: Seq<char>) -> Seq<char> {
    if pos == "1,midsld"@ {
        "the domain name, and again at the start"@
    } else if pos == "midsld"@ {
        "the domain name"@
    } else if pos == "sniext+1"@ {
        "the start of the server name extension"@
    } else if pos == "sniext+4"@ {
        "just inside the server name extension"@
    } else if pos == "host+1"@ {
        "the first byte of the hostname"@
    } else if pos == "method+2,midsld"@ {
        "the method, and again at the domain name"@
    } else if pos == "method+2"@ {
        "the method"@
    } else if pos == "2"@ {
        "its second byte"@
    } else if pos == "1"@ {
        "its first byte"@
    } else {
        pos
    }
}

fn describe(pos: &str) -> (r: String)
    ensures
        r@ == describe_spec(pos@),
{
    if str_eq(pos, "1,midsld") {
        "the domain name, and again at the start".to_owned()
    } else if str_eq(pos, "midsld") {
        "the domain name".to_owned()
    } else if str_eq(pos, "sniext+1") {
        "the start of the server name extension".to_owned()
    } else if str_eq(pos, "sniext+4") {
        "just inside the server name extension".to_owned()
    } else if str_eq(pos, "host+1") {
        "the first byte of the hostname".to_owned()
    } else if str_eq(pos, "method+2,midsld") {
        "the method, and again at the domain name".to_owned()
    } else if str_eq(pos, "method+2") {
        "the method".to_owned()
    } else if str_eq(pos, "2") {
        "its second byte".to_owned()
    } else if str_eq(pos, "1") {
        "its first byte".to_owned()
    } else {
        copy_str(pos)
    }
}

// ---------------------------------------------------------------------------------------------
// Building candidates
// ---------------------------------------------------------------------------------------------

pub open spec fn bare(function: Seq<char>) -> ActionView {
    ActionView { function, payload: Seq::empty(), args: Seq::empty() }
}

pub open spec fn with_arg(a: ActionView, key: Seq<char>, value: Seq<char>) -> ActionView {
    ActionView { args: args_insert(a.args, key, value), ..a }
}

/// `pos` is the argument that decides where a split lands; every splitting function takes it and
/// none of them do anything useful on their default of `2`.
pub open spec fn split_spec(function: Seq<char>, pos: Seq<char>) -> ActionView {
    with_arg(bare(function), "pos"@, pos)
}

/// `a` with each of `args` set in turn.
pub open spec fn with_args_spec(a: ActionView, args: Seq<(Seq<char>, Seq<char>)>) -> ActionView
    decreases args.len(),
{
    if args.len() == 0 {
        a
    } else {
        with_args_spec(with_arg(a, args[0].0, args[0].1), args.skip(1))
    }
}

pub open spec fn action_views(v: Seq<Action>) -> Seq<ActionView> {
    v.map_values(|a: Action| a@)
}

pub open spec fn config_views(v: Seq<Config>) -> Seq<ConfigView> {
    v.map_values(|c: Config| c@)
}

/// One config holding one enabled strategy named like it, claiming TCP `port` and the protocols
/// `l7`, whose actions all apply to `payload`.
pub open spec fn strategy_config_view(
    name: Seq<char>,
    notes: Seq<char>,
    port: Seq<char>,
    l7: Seq<Seq<char>>,
    payload: Seq<char>,
    actions: Seq<ActionView>,
) -> ConfigView {
    ConfigView {
        schema: SCHEMA_VERSION,
        name,
        notes: Some(notes),
        compat: NFQWS2_COMPAT_VER,
        strategies: seq![
            StrategyView {
                name,
                enabled: true,
                filter: FilterView { tcp: Some(port), l7, ..Filter::default_view() },
                actions: actions.map_values(|a: ActionView| ActionView { payload: seq![payload], ..a }),
            },
        ],
    }
}

pub open spec fn tls_view(name: Seq<char>, notes: Seq<char>, actions: Seq<ActionView>) -> ConfigView {
    strategy_config_view(name, notes, "443"@, seq!["tls"@], "tls_client_hello"@, actions)
}

pub open spec fn http_view(name: Seq<char>, notes: Seq<char>, actions: Seq<ActionView>) -> ConfigView {
    strategy_config_view(name, notes, "80"@, seq!["http"@], "http_req"@, actions)
}

fn split(function: &str, pos: &str) -> (r: Action)
    ensures
        r@ == split_spec(function@, pos@),
{
    Action::new(function).with("pos", pos)
}

fn with_args(action: Action, args: &Vec<(&str, &str)>) -> (r: Action)
    ensures
        r@ == with_args_spec(action@, pair_strs(args@)),
{
    let ghost all = pair_strs(args@);
    let mut action = action;
    let ghost start = action@;
    let n = args.len();
    let mut i: usize = 0;
    assert(all.skip(0) =~= all);
    while i < n
        invariant
            n == args@.len(),
            all == pair_strs(args@),
            i <= n,
            with_args_spec(action@, all.skip(i as int)) == with_args_spec(start, all),
        decreases n - i,
    {
        let (key, value) = args[i];
        assert(all.skip(i as int)[0] == (key@, value@));
        assert(all.skip(i as int).skip(1) =~= all.skip(i + 1));
        action = action.with(key, value);
        i = i + 1;
    }
    assert(all.skip(n as int) =~= Seq::<(Seq<char>, Seq<char>)>::empty());
    action
}

fn strategy_config(
    name: &str,
    notes: &str,
    port: &str,
    l7: Vec<String>,
    payload: &str,
    actions: Vec<Action>,
) -> (r: Config)
    ensures
        r@ == strategy_config_view(
            name@,
            notes@,
            port@,
            string_views(l7@),
            payload@,
            action_views(actions@),
        ),
{
    let ghost given = action_views(actions@);
    let ghost want = given.map_values(|a: ActionView| ActionView { payload: seq![payload@], ..a });
    let mut rest = actions;
    let mut done: Vec<Action> = Vec::new();
    let n = rest.len();
    let mut i: usize = 0;
    while i < n
        invariant
            n == given.len(),
            i <= n,
            rest@.len() + i == n,
            done@.len() == i,
            action_views(rest@) == given.skip(i as int),
            action_views(done@) == want.take(i as int),
            want == given.map_values(|a: ActionView| ActionView { payload: seq![payload@], ..a }),
        decreases n - i,
    {
        let ghost before = rest@;
        assert(action_views(before)[0] == given.skip(i as int)[0]);
        let mut a = rest.remove(0);
        assert(a@ == given[i as int]);
        let p = vec![copy_str(payload)];
        assert(string_views(p@) =~= seq![payload@]);
        a.payload = p;
        assert(a@ == want[i as int]);
        let ghost done_before = done@;
        done.push(a);
        assert(rest@ =~= before.remove(0));
        assert forall|k: int| 0 <= k < rest@.len() implies action_views(rest@)[k] == given.skip(
            i + 1,
        )[k] by {
            assert(rest@[k] == before[k + 1]);
            assert(action_views(before)[k + 1] == given.skip(i as int)[k + 1]);
        }
        assert(action_views(rest@) =~= given.skip(i + 1));
        assert forall|k: int| 0 <= k < done@.len() implies action_views(done@)[k] == want.take(
            i + 1,
        )[k] by {
            if k < i {
                assert(done@[k] == done_before[k]);
                assert(action_views(done_before)[k] == want.take(i as int)[k]);
            }
        }
        assert(action_views(done@) =~= want.take(i + 1));
        i = i + 1;
    }
    assert(want.take(n as int) =~= want);
    let mut config = Config::new(name);
    config.notes = Some(copy_str(notes));
    let mut strategy = Strategy::new(name);
    let mut filter = Filter::default();
    filter.tcp = Some(copy_str(port));
    filter.l7 = l7;
    strategy.filter = filter;
    strategy.actions = done;
    config.strategies.push(strategy);
    assert(config@.strategies =~= strategy_config_view(
        name@,
        notes@,
        port@,
        string_views(l7@),
        payload@,
        given,
    ).strategies);
    config
}

fn tls(name: &str, notes: &str, actions: Vec<Action>) -> (r: Config)
    ensures
        r@ == tls_view(name@, notes@, action_views(actions@)),
{
    let l7 = vec!["tls".to_owned()];
    assert(string_views(l7@) =~= seq!["tls"@]);
    strategy_config(name, notes, "443", l7, "tls_client_hello", actions)
}

fn http(name: &str, notes: &str, actions: Vec<Action>) -> (r: Config)
    ensures
        r@ == http_view(name@, notes@, action_views(actions@)),
{
    let l7 = vec!["http".to_owned()];
    assert(string_views(l7@) =~= seq!["http"@]);
    strategy_config(name, notes, "80", l7, "http_req", actions)
}

// ---------------------------------------------------------------------------------------------
// The list
// ---------------------------------------------------------------------------------------------

pub open spec fn concat_configs(s: Seq<Seq<ConfigView>>) -> Seq<ConfigView>
    decreases s.len(),
{
    if s.len() == 0 {
        Seq::empty()
    } else {
        concat_configs(s.drop_last()) + s.last()
    }
}

/// Splitting alone. Beats a DPI that reads one packet and does not reassemble.
pub open spec fn split_family(function: Seq<char>) -> Seq<ConfigView> {
    tls_positions().map_values(
        |pos: Seq<char>|
            tls_view(
                name_of(seq![function, pos]),
                "Split the TLS hello at "@ + describe_spec(pos),
                seq![split_spec(function, pos)],
            ),
    )
}

/// Overlapping the first segment with data the DPI has already passed on.
pub open spec fn seqovl_family() -> Seq<ConfigView> {
    tls_key_positions().map_values(
        |pos: Seq<char>|
            tls_view(
                name_of(seq!["multisplit"@, "seqovl"@, pos]),
                "Split at "@ + describe_spec(pos) + ", overlapping the segment before it"@,
                seq![with_arg(split_spec("multisplit"@, pos), "seqovl"@, "1"@)],
            ),
    )
}

/// One fooling against every key position, with a decoy in the gap.
pub open spec fn decoy_row(
    function: Seq<char>,
    fooling: (Seq<char>, Seq<(Seq<char>, Seq<char>)>),
) -> Seq<ConfigView> {
    tls_key_positions().map_values(
        |pos: Seq<char>|
            tls_view(
                name_of(seq![function, fooling.0, pos]),
                "Split at "@ + describe_spec(pos) + " with a decoy the server discards"@,
                seq![with_args_spec(split_spec(function, pos), fooling.1)],
            ),
    )
}

/// A decoy in the gap, discarded somewhere between here and the server. This is the family that
/// beats a DPI which reassembles the stream, so it gets the full fooling sweep.
pub open spec fn decoy_family(function: Seq<char>) -> Seq<ConfigView> {
    concat_configs(
        foolings().map_values(
            |f: (Seq<char>, Seq<(Seq<char>, Seq<char>)>)| decoy_row(function, f),
        ),
    )
}

pub open spec fn fake_blob() -> ActionView {
    with_arg(bare("fake"@), "blob"@, "fake_default_tls"@)
}

pub open spec fn split_after_decoy() -> ActionView {
    split_spec("multidisorder"@, "1,midsld"@)
}

/// A whole decoy hello before the real one, then a split.
pub open spec fn fake_family() -> Seq<ConfigView> {
    foolings().map_values(
        |f: (Seq<char>, Seq<(Seq<char>, Seq<char>)>)|
            tls_view(
                name_of(seq!["fake"@, f.0]),
                "Send a whole decoy hello the server discards, then split the real one"@,
                seq![with_args_spec(fake_blob(), f.1), split_after_decoy()],
            ),
    )
}

pub open spec fn autottl_candidate(delta: nat) -> ConfigView {
    let d = decimal(delta);
    tls_view(
        name_of(seq!["fake"@, "autottl"@, d]),
        "Send a decoy that expires before the server sees it, then split the real hello"@,
        seq![
            with_arg(with_arg(fake_blob(), "ip4_autottl"@, "-"@ + d + ",3-20"@), "repeats"@, "2"@),
            split_after_decoy(),
        ],
    )
}

/// The same decoy, expiring before it reaches the server. autottl finds the hop count itself.
pub open spec fn autottl_family() -> Seq<ConfigView> {
    Seq::new(5, |i: int| autottl_candidate((i + 1) as nat))
}

pub open spec fn ttl_candidate(ttl: nat) -> ConfigView {
    let t = decimal(ttl);
    tls_view(
        name_of(seq!["fake"@, "ttl"@, t]),
        "Send a decoy that expires "@ + t + " hops away, then split the real hello"@,
        seq![
            with_arg(with_arg(fake_blob(), "ip4_ttl"@, t), "repeats"@, "2"@),
            split_after_decoy(),
        ],
    )
}

/// Fixed hop counts, for when autottl guesses wrong.
pub open spec fn ttl_family() -> Seq<ConfigView> {
    Seq::new(12, |i: int| ttl_candidate((i + 1) as nat))
}

/// Making the kernel do the splitting, for a DPI that only reads the first segment.
pub open spec fn wssize_family(function: Seq<char>) -> Seq<ConfigView> {
    tls_key_positions().map_values(
        |pos: Seq<char>|
            tls_view(
                name_of(seq!["wssize"@, function, pos]),
                "Shrink the window so the hello arrives in pieces, split at "@ + describe_spec(pos),
                seq![
                    with_arg(with_arg(bare("wssize"@), "wsize"@, "1"@), "scale"@, "6"@),
                    split_spec(function, pos),
                ],
            ),
    )
}

pub open spec fn extras() -> Seq<ConfigView> {
    seq![
        tls_view(
            "syndata"@,
            "Put a decoy hello in the SYN packet, before the real one"@,
            seq![
                with_arg(bare("syndata"@), "blob"@, "fake_default_tls"@),
                split_spec("multisplit"@, "1,midsld"@),
            ],
        ),
        tls_view(
            "syndata-http"@,
            "Put a decoy HTTP request in the SYN packet, before the real hello"@,
            seq![
                with_arg(bare("syndata"@), "blob"@, "fake_default_http"@),
                split_spec("multisplit"@, "1,midsld"@),
            ],
        ),
        tls_view(
            "tcpseg-seqovl"@,
            "Re-segment the hello with the first piece overlapping the one before it"@,
            seq![with_arg(with_arg(bare("tcpseg"@), "pos"@, "0,-1"@), "seqovl"@, "1"@)],
        ),
        tls_view(
            "tcpseg-midsld"@,
            "Re-segment the hello at the domain name"@,
            seq![with_arg(with_arg(bare("tcpseg"@), "pos"@, "0,midsld"@), "ip_id"@, "rnd"@)],
        ),
        tls_view(
            "oob"@,
            "Send an out-of-band byte the inspector reads and the server ignores"@,
            seq![bare("oob"@)],
        ),
        tls_view(
            "oob-urp"@,
            "The same out-of-band byte, with the urgent pointer moved"@,
            seq![with_arg(bare("oob"@), "urp"@, "1"@)],
        ),
    ]
}

/// HTTP. The reachability check speaks TLS only, so the walk cannot currently measure these —
/// they are here so a config editor and an eventual HTTP probe have something to start from.
pub open spec fn http_split_family(function: Seq<char>) -> Seq<ConfigView> {
    http_positions().map_values(
        |pos: Seq<char>|
            http_view(
                name_of(seq!["http"@, function, pos]),
                "Split the request at "@ + describe_spec(pos),
                seq![split_spec(function, pos)],
            ),
    )
}

pub open spec fn hostcase() -> ConfigView {
    http_view(
        "http-hostcase"@,
        "Change the case of the Host header, which some inspectors match literally"@,
        seq![bare("http_hostcase"@), split_spec("multisplit"@, "method+2,midsld"@)],
    )
}

/// Every candidate, most to least likely to be enough and cheapest first within each family: the
/// walk is stopped by the user, so what comes early is what a short run gets to try.
pub open spec fn candidate_views() -> Seq<ConfigView> {
    split_family("multisplit"@) + split_family("multidisorder"@) + seqovl_family() + decoy_family(
        "fakedsplit"@,
    ) + decoy_family("fakeddisorder"@) + fake_family() + autottl_family() + ttl_family()
        + wssize_family("multisplit"@) + wssize_family("multidisorder"@) + extras()
        + http_split_family("multisplit"@) + http_split_family("multidisorder"@) + seq![hostcase()]
}

// ---------------------------------------------------------------------------------------------
// Building the list
// ---------------------------------------------------------------------------------------------

fn name2(a: &str, b: &str) -> (r: String)
    ensures
        r@ == name_of(seq![a@, b@]),
{
    let parts = vec![copy_str(a), copy_str(b)];
    assert(views(parts@) =~= seq![a@, b@]);
    name(parts)
}

fn name3(a: &str, b: &str, c: &str) -> (r: String)
    ensures
        r@ == name_of(seq![a@, b@, c@]),
{
    let parts = vec![copy_str(a), copy_str(b), copy_str(c)];
    assert(views(parts@) =~= seq![a@, b@, c@]);
    name(parts)
}

fn one(a: Action) -> (r: Vec<Action>)
    ensures
        action_views(r@) == seq![a@],
{
    let r = vec![a];
    assert(action_views(r@) =~= seq![r@[0]@]);
    r
}

fn two(a: Action, b: Action) -> (r: Vec<Action>)
    ensures
        action_views(r@) == seq![a@, b@],
{
    let r = vec![a, b];
    assert(action_views(r@) =~= seq![r@[0]@, r@[1]@]);
    r
}

fn text2(a: &str, b: &str) -> (r: String)
    ensures
        r@ == a@ + b@,
{
    let mut r = copy_str(a);
    push_str(&mut r, b);
    r
}

fn text3(a: &str, b: &str, c: &str) -> (r: String)
    ensures
        r@ == a@ + b@ + c@,
{
    let mut r = copy_str(a);
    push_str(&mut r, b);
    push_str(&mut r, c);
    r
}

fn push_config(out: &mut Vec<Config>, c: Config)
    ensures
        config_views(final(out)@) == config_views(old(out)@).push(c@),
{
    out.push(c);
    assert(config_views(out@) =~= config_views(old(out)@).push(c@));
}

fn push_split_family(out: &mut Vec<Config>, function: &str)
    ensures
        config_views(final(out)@) == config_views(old(out)@) + split_family(function@),
{
    let ps = tls_position_list();
    let ghost fam = split_family(function@);
    let ghost start = config_views(out@);
    let n = ps.len();
    let mut i: usize = 0;
    assert(start + fam.take(0) =~= start);
    while i < n
        invariant
            n == ps@.len(),
            strs(ps@) == tls_positions(),
            i <= n,
            fam == split_family(function@),
            config_views(out@) == start + fam.take(i as int),
        decreases n - i,
    {
        let pos = ps[i];
        assert(pos@ == tls_positions()[i as int]);
        let c = tls(
            name2(function, pos).as_str(),
            text2("Split the TLS hello at ", describe(pos).as_str()).as_str(),
            one(split(function, pos)),
        );
        assert(c@ == fam[i as int]);
        push_config(out, c);
        assert(config_views(out@) =~= start + fam.take(i + 1));
        i = i + 1;
    }
    assert(fam.take(n as int) =~= fam);
}

fn push_seqovl_family(out: &mut Vec<Config>)
    ensures
        config_views(final(out)@) == config_views(old(out)@) + seqovl_family(),
{
    let ps = tls_key_position_list();
    let ghost fam = seqovl_family();
    let ghost start = config_views(out@);
    let n = ps.len();
    let mut i: usize = 0;
    assert(start + fam.take(0) =~= start);
    while i < n
        invariant
            n == ps@.len(),
            strs(ps@) == tls_key_positions(),
            i <= n,
            fam == seqovl_family(),
            config_views(out@) == start + fam.take(i as int),
        decreases n - i,
    {
        let pos = ps[i];
        assert(pos@ == tls_key_positions()[i as int]);
        let c = tls(
            name3("multisplit", "seqovl", pos).as_str(),
            text3("Split at ", describe(pos).as_str(), ", overlapping the segment before it").as_str(),
            one(split("multisplit", pos).with("seqovl", "1")),
        );
        assert(c@ == fam[i as int]);
        push_config(out, c);
        assert(config_views(out@) =~= start + fam.take(i + 1));
        i = i + 1;
    }
    assert(fam.take(n as int) =~= fam);
}

fn push_decoy_row(out: &mut Vec<Config>, function: &str, fooling: &str, args: &Vec<(&str, &str)>)
    ensures
        config_views(final(out)@) == config_views(old(out)@) + decoy_row(
            function@,
            (fooling@, pair_strs(args@)),
        ),
{
    let ps = tls_key_position_list();
    let ghost fam = decoy_row(function@, (fooling@, pair_strs(args@)));
    let ghost start = config_views(out@);
    let n = ps.len();
    let mut i: usize = 0;
    assert(start + fam.take(0) =~= start);
    while i < n
        invariant
            n == ps@.len(),
            strs(ps@) == tls_key_positions(),
            i <= n,
            fam == decoy_row(function@, (fooling@, pair_strs(args@))),
            config_views(out@) == start + fam.take(i as int),
        decreases n - i,
    {
        let pos = ps[i];
        assert(pos@ == tls_key_positions()[i as int]);
        let c = tls(
            name3(function, fooling, pos).as_str(),
            text3("Split at ", describe(pos).as_str(), " with a decoy the server discards").as_str(),
            one(with_args(split(function, pos), args)),
        );
        assert(c@ == fam[i as int]);
        push_config(out, c);
        assert(config_views(out@) =~= start + fam.take(i + 1));
        i = i + 1;
    }
    assert(fam.take(n as int) =~= fam);
}

fn push_decoy_family(out: &mut Vec<Config>, function: &str)
    ensures
        config_views(final(out)@) == config_views(old(out)@) + decoy_family(function@),
{
    let fs = fooling_list();
    let ghost rows = foolings().map_values(
        |f: (Seq<char>, Seq<(Seq<char>, Seq<char>)>)| decoy_row(function@, f),
    );
    let ghost start = config_views(out@);
    let n = fs.len();
    let mut i: usize = 0;
    assert(start + concat_configs(rows.take(0)) =~= start);
    while i < n
        invariant
            n == fs@.len(),
            fooling_strs(fs@) == foolings(),
            i <= n,
            rows == foolings().map_values(
                |f: (Seq<char>, Seq<(Seq<char>, Seq<char>)>)| decoy_row(function@, f),
            ),
            config_views(out@) == start + concat_configs(rows.take(i as int)),
        decreases n - i,
    {
        let f = &fs[i];
        assert((f.0@, pair_strs(f.1@)) == foolings()[i as int]);
        push_decoy_row(out, function, f.0, &f.1);
        assert(rows.take(i + 1).drop_last() =~= rows.take(i as int));
        assert(config_views(out@) =~= start + concat_configs(rows.take(i + 1)));
        i = i + 1;
    }
    assert(rows.take(n as int) =~= rows);
}

fn fake_blob_action() -> (r: Action)
    ensures
        r@ == fake_blob(),
{
    Action::new("fake").with("blob", "fake_default_tls")
}

fn push_fake_family(out: &mut Vec<Config>)
    ensures
        config_views(final(out)@) == config_views(old(out)@) + fake_family(),
{
    let fs = fooling_list();
    let ghost fam = fake_family();
    let ghost start = config_views(out@);
    let n = fs.len();
    let mut i: usize = 0;
    assert(start + fam.take(0) =~= start);
    while i < n
        invariant
            n == fs@.len(),
            fooling_strs(fs@) == foolings(),
            i <= n,
            fam == fake_family(),
            config_views(out@) == start + fam.take(i as int),
        decreases n - i,
    {
        let f = &fs[i];
        assert((f.0@, pair_strs(f.1@)) == foolings()[i as int]);
        let c = tls(
            name2("fake", f.0).as_str(),
            "Send a whole decoy hello the server discards, then split the real one",
            two(with_args(fake_blob_action(), &f.1), split("multidisorder", "1,midsld")),
        );
        assert(c@ == fam[i as int]);
        push_config(out, c);
        assert(config_views(out@) =~= start + fam.take(i + 1));
        i = i + 1;
    }
    assert(fam.take(n as int) =~= fam);
}

fn push_autottl_family(out: &mut Vec<Config>)
    ensures
        config_views(final(out)@) == config_views(old(out)@) + autottl_family(),
{
    let ghost fam = autottl_family();
    let ghost start = config_views(out@);
    let mut delta: u64 = 1;
    assert(start + fam.take(0) =~= start);
    while delta <= 5
        invariant
            1 <= delta <= 6,
            fam == autottl_family(),
            config_views(out@) == start + fam.take(delta - 1),
        decreases 6 - delta,
    {
        let d = decimal_string(delta);
        let autottl = text3("-", d.as_str(), ",3-20");
        let decoy = fake_blob_action().with("ip4_autottl", autottl.as_str()).with("repeats", "2");
        let c = tls(
            name3("fake", "autottl", d.as_str()).as_str(),
            "Send a decoy that expires before the server sees it, then split the real hello",
            two(decoy, split("multidisorder", "1,midsld")),
        );
        assert(c@ == fam[delta - 1]);
        push_config(out, c);
        assert(config_views(out@) =~= start + fam.take(delta as int));
        delta = delta + 1;
    }
    assert(fam.take(5) =~= fam);
}

fn push_ttl_family(out: &mut Vec<Config>)
    ensures
        config_views(final(out)@) == config_views(old(out)@) + ttl_family(),
{
    let ghost fam = ttl_family();
    let ghost start = config_views(out@);
    let mut ttl: u64 = 1;
    assert(start + fam.take(0) =~= start);
    while ttl <= 12
        invariant
            1 <= ttl <= 13,
            fam == ttl_family(),
            config_views(out@) == start + fam.take(ttl - 1),
        decreases 13 - ttl,
    {
        let t = decimal_string(ttl);
        let decoy = fake_blob_action().with("ip4_ttl", t.as_str()).with("repeats", "2");
        let c = tls(
            name3("fake", "ttl", t.as_str()).as_str(),
            text3("Send a decoy that expires ", t.as_str(), " hops away, then split the real hello").as_str(),
            two(decoy, split("multidisorder", "1,midsld")),
        );
        assert(c@ == fam[ttl - 1]);
        push_config(out, c);
        assert(config_views(out@) =~= start + fam.take(ttl as int));
        ttl = ttl + 1;
    }
    assert(fam.take(12) =~= fam);
}

fn push_wssize_family(out: &mut Vec<Config>, function: &str)
    ensures
        config_views(final(out)@) == config_views(old(out)@) + wssize_family(function@),
{
    let ps = tls_key_position_list();
    let ghost fam = wssize_family(function@);
    let ghost start = config_views(out@);
    let n = ps.len();
    let mut i: usize = 0;
    assert(start + fam.take(0) =~= start);
    while i < n
        invariant
            n == ps@.len(),
            strs(ps@) == tls_key_positions(),
            i <= n,
            fam == wssize_family(function@),
            config_views(out@) == start + fam.take(i as int),
        decreases n - i,
    {
        let pos = ps[i];
        assert(pos@ == tls_key_positions()[i as int]);
        let c = tls(
            name3("wssize", function, pos).as_str(),
            text2(
                "Shrink the window so the hello arrives in pieces, split at ",
                describe(pos).as_str(),
            ).as_str(),
            two(Action::new("wssize").with("wsize", "1").with("scale", "6"), split(function, pos)),
        );
        assert(c@ == fam[i as int]);
        push_config(out, c);
        assert(config_views(out@) =~= start + fam.take(i + 1));
        i = i + 1;
    }
    assert(fam.take(n as int) =~= fam);
}

fn push_extras(out: &mut Vec<Config>)
    ensures
        config_views(final(out)@) == config_views(old(out)@) + extras(),
{
    let ghost start = config_views(out@);
    let ghost fam = extras();
    out.push(
        tls(
            "syndata",
            "Put a decoy hello in the SYN packet, before the real one",
            two(Action::new("syndata").with("blob", "fake_default_tls"), split("multisplit", "1,midsld")),
        ),
    );
    out.push(
        tls(
            "syndata-http",
            "Put a decoy HTTP request in the SYN packet, before the real hello",
            two(Action::new("syndata").with("blob", "fake_default_http"), split("multisplit", "1,midsld")),
        ),
    );
    out.push(
        tls(
            "tcpseg-seqovl",
            "Re-segment the hello with the first piece overlapping the one before it",
            one(Action::new("tcpseg").with("pos", "0,-1").with("seqovl", "1")),
        ),
    );
    out.push(
        tls(
            "tcpseg-midsld",
            "Re-segment the hello at the domain name",
            one(Action::new("tcpseg").with("pos", "0,midsld").with("ip_id", "rnd")),
        ),
    );
    out.push(
        tls(
            "oob",
            "Send an out-of-band byte the inspector reads and the server ignores",
            one(Action::new("oob")),
        ),
    );
    out.push(
        tls(
            "oob-urp",
            "The same out-of-band byte, with the urgent pointer moved",
            one(Action::new("oob").with("urp", "1")),
        ),
    );
    assert(config_views(out@) =~= start + fam);
}

fn push_http_split_family(out: &mut Vec<Config>, function: &str)
    ensures
        config_views(final(out)@) == config_views(old(out)@) + http_split_family(function@),
{
    let ps = http_position_list();
    let ghost fam = http_split_family(function@);
    let ghost start = config_views(out@);
    let n = ps.len();
    let mut i: usize = 0;
    assert(start + fam.take(0) =~= start);
    while i < n
        invariant
            n == ps@.len(),
            strs(ps@) == http_positions(),
            i <= n,
            fam == http_split_family(function@),
            config_views(out@) == start + fam.take(i as int),
        decreases n - i,
    {
        let pos = ps[i];
        assert(pos@ == http_positions()[i as int]);
        let c = http(
            name3("http", function, pos).as_str(),
            text2("Split the request at ", describe(pos).as_str()).as_str(),
            one(split(function, pos)),
        );
        assert(c@ == fam[i as int]);
        push_config(out, c);
        assert(config_views(out@) =~= start + fam.take(i + 1));
        i = i + 1;
    }
    assert(fam.take(n as int) =~= fam);
}

/// Ordered most to least likely to be enough, and cheapest first within each family. This is
/// blockcheck2's sweep, narrowed: its own search prunes after each stage, and this list cannot,
/// because every result is reported and the choice is the user's.
pub fn candidates() -> (r: Vec<Config>)
    ensures
        config_views(r@) == candidate_views(),
{
    let mut out: Vec<Config> = Vec::new();
    assert(config_views(out@) =~= Seq::<ConfigView>::empty());
    push_split_family(&mut out, "multisplit");
    assert(config_views(out@) =~= split_family("multisplit"@));
    push_split_family(&mut out, "multidisorder");
    push_seqovl_family(&mut out);
    push_decoy_family(&mut out, "fakedsplit");
    push_decoy_family(&mut out, "fakeddisorder");
    push_fake_family(&mut out);
    push_autottl_family(&mut out);
    push_ttl_family(&mut out);
    push_wssize_family(&mut out, "multisplit");
    push_wssize_family(&mut out, "multidisorder");
    push_extras(&mut out);
    push_http_split_family(&mut out, "multisplit");
    push_http_split_family(&mut out, "multidisorder");
    let ghost before = config_views(out@);
    out.push(
        http(
            "http-hostcase",
            "Change the case of the Host header, which some inspectors match literally",
            two(Action::new("http_hostcase"), split("multisplit", "method+2,midsld")),
        ),
    );
    assert(config_views(out@) =~= before + seq![hostcase()]);
    out
}

// ---------------------------------------------------------------------------------------------
// Cost
// ---------------------------------------------------------------------------------------------

/// How many times an action repeats what it sends: its `repeats` argument when that is a number,
/// else once.
pub open spec fn repeats_of(a: ActionView) -> nat {
    match args_lookup(a.args, "repeats"@) {
        Some(r) => match parse_u32(r) {
            Some(n) => n as nat,
            None => 1,
        },
        None => 1,
    }
}

/// Injected packets are extra traffic that a middlebox or the server may take badly, and `wssize`
/// keeps costing throughput for the whole life of every connection it touches.
pub open spec fn function_weight(function: Seq<char>, repeats: nat) -> nat {
    if function == "fake"@ || function == "syndata"@ || function == "hostfakesplit"@ {
        3 * repeats
    } else if function == "fakedsplit"@ || function == "fakeddisorder"@ {
        2 * repeats
    } else if function == "wssize"@ {
        6
    } else if function == "oob"@ {
        2
    } else {
        0
    }
}

/// Each extra cut is another packet on the wire.
pub open spec fn extra_cuts(a: ActionView) -> nat {
    match args_lookup(a.args, "pos"@) {
        Some(p) => (split_on(p, ',').len() - 1) as nat,
        None => 0,
    }
}

/// An argument that builds packets meant to be discarded somewhere between here and the server.
pub open spec fn is_discard_key(k: Seq<char>) -> bool {
    k == "badsum"@ || k == "tcp_md5"@ || k == "seqovl"@ || contains_seq(k, "ttl"@) || contains_seq(
        k,
        "autottl"@,
    )
}

pub open spec fn discard_count(keys: Seq<Seq<char>>) -> nat
    decreases keys.len(),
{
    if keys.len() == 0 {
        0
    } else {
        discard_count(keys.drop_last()) + if is_discard_key(keys.last()) {
            1nat
        } else {
            0nat
        }
    }
}

pub open spec fn action_cost(a: ActionView) -> nat {
    1 + function_weight(a.function, repeats_of(a)) + extra_cuts(a) + discard_count(args_keys(a.args))
}

pub open spec fn actions_cost(acts: Seq<ActionView>) -> nat
    decreases acts.len(),
{
    if acts.len() == 0 {
        0
    } else {
        actions_cost(acts.drop_last()) + action_cost(acts.last())
    }
}

/// Only enabled strategies cost anything.
pub open spec fn strategy_cost(s: StrategyView) -> nat {
    if s.enabled {
        actions_cost(s.actions)
    } else {
        0
    }
}

pub open spec fn strategies_cost(ss: Seq<StrategyView>) -> nat
    decreases ss.len(),
{
    if ss.len() == 0 {
        0
    } else {
        strategies_cost(ss.drop_last()) + strategy_cost(ss.last())
    }
}

/// How much a strategy disturbs traffic beyond the minimum. Lower is gentler.
pub open spec fn config_cost(c: ConfigView) -> nat {
    strategies_cost(c.strategies)
}

proof fn lemma_actions_prefix(acts: Seq<ActionView>, i: int)
    requires
        0 <= i <= acts.len(),
    ensures
        actions_cost(acts.take(i)) <= actions_cost(acts),
    decreases acts.len() - i,
{
    if i < acts.len() {
        lemma_actions_prefix(acts, i + 1);
        assert(acts.take(i + 1).drop_last() =~= acts.take(i));
    } else {
        assert(acts.take(i) =~= acts);
    }
}

proof fn lemma_strategies_prefix(ss: Seq<StrategyView>, i: int)
    requires
        0 <= i <= ss.len(),
    ensures
        strategies_cost(ss.take(i)) <= strategies_cost(ss),
    decreases ss.len() - i,
{
    if i < ss.len() {
        lemma_strategies_prefix(ss, i + 1);
        assert(ss.take(i + 1).drop_last() =~= ss.take(i));
    } else {
        assert(ss.take(i) =~= ss);
    }
}

fn discard_key(k: &str) -> (r: bool)
    ensures
        r == is_discard_key(k@),
{
    str_eq(k, "badsum") || str_eq(k, "tcp_md5") || str_eq(k, "seqovl") || contains_str(k, "ttl")
        || contains_str(k, "autottl")
}

fn action_cost_of(a: &Action) -> (r: u32)
    requires
        action_cost(a@) <= u32::MAX,
    ensures
        r == action_cost(a@),
{
    let repeats: u32 = match a.args.get("repeats") {
        Some(r) => match parse_u32_str(r.as_str()) {
            Some(n) => n,
            None => 1,
        },
        None => 1,
    };
    assert(repeats == repeats_of(a@));
    let f = a.function.as_str();
    let weight: u32 = if str_eq(f, "fake") || str_eq(f, "syndata") || str_eq(f, "hostfakesplit") {
        3 * repeats
    } else if str_eq(f, "fakedsplit") || str_eq(f, "fakeddisorder") {
        2 * repeats
    } else if str_eq(f, "wssize") {
        6
    } else if str_eq(f, "oob") {
        2
    } else {
        0
    };
    let cuts: u32 = match a.args.get("pos") {
        Some(p) => {
            let pieces = split_str(p.as_str(), ',');
            proof {
                lemma_split_len(p@, ',');
            }
            (pieces.len() - 1) as u32
        },
        None => 0,
    };
    let ghost keys = args_keys(a@.args);
    let m = a.args.len();
    let mut discards: u32 = 0;
    let mut j: usize = 0;
    assert(keys.take(0) =~= Seq::<Seq<char>>::empty());
    while j < m
        invariant
            m == a@.args.len(),
            keys == args_keys(a@.args),
            j <= m,
            discards == discard_count(keys.take(j as int)),
            discards <= j,
            1 + weight + cuts + discard_count(keys) <= u32::MAX,
        decreases m - j,
    {
        let (key, _) = a.args.entry(j);
        proof {
            assert(keys.take(j + 1).drop_last() =~= keys.take(j as int));
            assert(keys.take(j + 1).last() == key@);
        }
        if discard_key(key.as_str()) {
            proof {
                lemma_discard_prefix(keys, j + 1);
            }
            discards = discards + 1;
        }
        j = j + 1;
    }
    assert(keys.take(m as int) =~= keys);
    1 + weight + cuts + discards
}

proof fn lemma_discard_prefix(keys: Seq<Seq<char>>, i: int)
    requires
        0 <= i <= keys.len(),
    ensures
        discard_count(keys.take(i)) <= discard_count(keys),
    decreases keys.len() - i,
{
    if i < keys.len() {
        lemma_discard_prefix(keys, i + 1);
        assert(keys.take(i + 1).drop_last() =~= keys.take(i));
    } else {
        assert(keys.take(i) =~= keys);
    }
}

/// How much `config` disturbs traffic beyond the minimum; lower is gentler. The cost only ever
/// orders strategies that already work, so it can be a rough heuristic without being able to hide
/// a working one.
pub fn cost(config: &Config) -> (r: u32)
    requires
        config_cost(config@) <= u32::MAX,
    ensures
        r == config_cost(config@),
{
    let ghost ss = config@.strategies;
    let mut total: u32 = 0;
    let n = config.strategies.len();
    let mut i: usize = 0;
    assert(ss.take(0) =~= Seq::<StrategyView>::empty());
    while i < n
        invariant
            n == ss.len(),
            ss == config@.strategies,
            i <= n,
            total == strategies_cost(ss.take(i as int)),
            strategies_cost(ss) <= u32::MAX,
        decreases n - i,
    {
        let s = &config.strategies[i];
        proof {
            assert(ss.take(i + 1).drop_last() =~= ss.take(i as int));
            assert(ss.take(i + 1).last() == s@);
            lemma_strategies_prefix(ss, i + 1);
        }
        if s.enabled {
            let ghost acts = s@.actions;
            let m = s.actions.len();
            let mut j: usize = 0;
            assert(acts.take(0) =~= Seq::<ActionView>::empty());
            while j < m
                invariant
                    m == acts.len(),
                    acts == s@.actions,
                    j <= m,
                    total == strategies_cost(ss.take(i as int)) + actions_cost(acts.take(j as int)),
                    strategies_cost(ss.take(i as int)) + actions_cost(acts) <= u32::MAX,
                decreases m - j,
            {
                proof {
                    assert(acts.take(j + 1).drop_last() =~= acts.take(j as int));
                    assert(acts.take(j + 1).last() == s.actions@[j as int]@);
                    lemma_actions_prefix(acts, j + 1);
                }
                let c = action_cost_of(&s.actions[j]);
                total = total + c;
                j = j + 1;
            }
            assert(acts.take(m as int) =~= acts);
        }
        i = i + 1;
    }
    assert(ss.take(n as int) =~= ss);
    total
}

// ---------------------------------------------------------------------------------------------
// Every candidate is cheap enough to cost
// ---------------------------------------------------------------------------------------------

/// An action whose cost is small: it repeats at most twice, has few arguments, and a short split
/// position.
pub open spec fn action_ok(a: ActionView) -> bool {
    &&& (args_lookup(a.args, "repeats"@) is None || args_lookup(a.args, "repeats"@) == Some("2"@))
    &&& a.args.len() <= 4
    &&& (args_lookup(a.args, "pos"@) matches Some(p) ==> p.len() <= 60)
}

pub open spec fn cheap(s: Seq<ConfigView>) -> bool {
    forall|k: int| 0 <= k < s.len() ==> config_cost(#[trigger] s[k]) <= 144
}

proof fn lemma_discard_count_len(keys: Seq<Seq<char>>)
    ensures
        discard_count(keys) <= keys.len(),
    decreases keys.len(),
{
    if keys.len() > 0 {
        lemma_discard_count_len(keys.drop_last());
    }
}

proof fn lemma_two_repeats()
    ensures
        parse_u32("2"@) == Some(2u32),
{
    reveal_strlit("2");
    let s = "2"@;
    assert(s.drop_last() =~= Seq::<char>::empty());
    assert(s.last() == '2');
    assert(digits_value(s) == digits_value(s.drop_last()) * 10 + digit_value('2'));
    assert(digits_value(s) == 2);
}

proof fn lemma_action_ok_cost(a: ActionView)
    requires
        action_ok(a),
    ensures
        action_cost(a) <= 72,
{
    lemma_two_repeats();
    assert(repeats_of(a) <= 2);
    lemma_discard_count_len(args_keys(a.args));
    if let Some(p) = args_lookup(a.args, "pos"@) {
        lemma_split_len(p, ',');
    }
}

proof fn lemma_insert_len(s: Seq<(Seq<char>, Seq<char>)>, key: Seq<char>, value: Seq<char>)
    ensures
        args_insert(s, key, value).len() <= s.len() + 1,
    decreases s.len(),
{
    if s.len() > 0 {
        lemma_insert_len(s.skip(1), key, value);
    }
}

proof fn lemma_with_arg_ok(a: ActionView, key: Seq<char>, value: Seq<char>)
    requires
        action_ok(a),
        a.args.len() <= 3,
        key == "repeats"@ ==> value == "2"@,
        key == "pos"@ ==> value.len() <= 60,
    ensures
        action_ok(with_arg(a, key, value)),
        with_arg(a, key, value).args.len() <= a.args.len() + 1,
{
    lemma_insert_lookup(a.args, key, value, "repeats"@);
    lemma_insert_lookup(a.args, key, value, "pos"@);
    lemma_insert_len(a.args, key, value);
}

proof fn lemma_with_args_ok(a: ActionView, args: Seq<(Seq<char>, Seq<char>)>)
    requires
        action_ok(a),
        a.args.len() + args.len() <= 4,
        forall|i: int|
            0 <= i < args.len() ==> (#[trigger] args[i]).0 != "repeats"@ && args[i].0 != "pos"@,
    ensures
        action_ok(with_args_spec(a, args)),
    decreases args.len(),
{
    if args.len() > 0 {
        lemma_with_arg_ok(a, args[0].0, args[0].1);
        let rest = args.skip(1);
        assert forall|i: int| 0 <= i < rest.len() implies (#[trigger] rest[i]).0 != "repeats"@
            && rest[i].0 != "pos"@ by {
            assert(rest[i] == args[i + 1]);
        }
        lemma_with_args_ok(with_arg(a, args[0].0, args[0].1), rest);
    }
}

proof fn lemma_actions_cost_bound(acts: Seq<ActionView>)
    requires
        forall|i: int| 0 <= i < acts.len() ==> action_ok(#[trigger] acts[i]),
    ensures
        actions_cost(acts) <= 72 * acts.len(),
    decreases acts.len(),
{
    if acts.len() > 0 {
        lemma_actions_cost_bound(acts.drop_last());
        lemma_action_ok_cost(acts.last());
    }
}

proof fn lemma_view_cost(
    name: Seq<char>,
    notes: Seq<char>,
    port: Seq<char>,
    l7: Seq<Seq<char>>,
    payload: Seq<char>,
    acts: Seq<ActionView>,
)
    requires
        acts.len() <= 2,
        forall|i: int| 0 <= i < acts.len() ==> action_ok(#[trigger] acts[i]),
    ensures
        config_cost(strategy_config_view(name, notes, port, l7, payload, acts)) <= 144,
{
    let c = strategy_config_view(name, notes, port, l7, payload, acts);
    let mapped = acts.map_values(|a: ActionView| ActionView { payload: seq![payload], ..a });
    assert forall|i: int| 0 <= i < mapped.len() implies action_ok(#[trigger] mapped[i]) by {
        assert(mapped[i].args == acts[i].args);
    }
    lemma_actions_cost_bound(mapped);
    assert(72 * mapped.len() <= 144) by (nonlinear_arith)
        requires
            mapped.len() <= 2,
    ;
    assert(c.strategies.drop_last() =~= Seq::<StrategyView>::empty());
    assert(c.strategies.last().actions == mapped);
    assert(strategies_cost(c.strategies) == strategies_cost(c.strategies.drop_last())
        + strategy_cost(c.strategies.last()));
}

/// Facts about the literals the candidates are built from.
proof fn lemma_literals()
    ensures
        forall|i: int| 0 <= i < tls_positions().len() ==> (#[trigger] tls_positions()[i]).len() <= 60,
        forall|i: int|
            0 <= i < tls_key_positions().len() ==> (#[trigger] tls_key_positions()[i]).len() <= 60,
        forall|i: int| 0 <= i < http_positions().len() ==> (#[trigger] http_positions()[i]).len() <= 60,
        forall|i: int, j: int|
            0 <= i < foolings().len() && 0 <= j < foolings()[i].1.len() ==> (#[trigger] foolings()[i].1[j]).0
                != "repeats"@ && foolings()[i].1[j].0 != "pos"@,
        forall|i: int| 0 <= i < foolings().len() ==> (#[trigger] foolings()[i]).1.len() <= 2,
        "pos"@ != "repeats"@,
        "seqovl"@ != "repeats"@,
        "seqovl"@ != "pos"@,
        "blob"@ != "repeats"@,
        "blob"@ != "pos"@,
        "wsize"@ != "repeats"@,
        "wsize"@ != "pos"@,
        "scale"@ != "repeats"@,
        "scale"@ != "pos"@,
        "ip4_autottl"@ != "repeats"@,
        "ip4_autottl"@ != "pos"@,
        "ip4_ttl"@ != "repeats"@,
        "ip4_ttl"@ != "pos"@,
        "ip_id"@ != "repeats"@,
        "ip_id"@ != "pos"@,
        "urp"@ != "repeats"@,
        "urp"@ != "pos"@,
        "0,-1"@.len() <= 60,
        "0,midsld"@.len() <= 60,
{
    reveal_strlit("repeats");
    reveal_strlit("pos");
    reveal_strlit("seqovl");
    reveal_strlit("blob");
    reveal_strlit("wsize");
    reveal_strlit("scale");
    reveal_strlit("ip4_autottl");
    reveal_strlit("ip4_ttl");
    reveal_strlit("ip_id");
    reveal_strlit("urp");
    reveal_strlit("0,-1");
    reveal_strlit("0,midsld");
    reveal_strlit("1,midsld");
    reveal_strlit("midsld");
    reveal_strlit("sniext+1");
    reveal_strlit("sniext+4");
    reveal_strlit("host+1");
    reveal_strlit("2");
    reveal_strlit("1");
    reveal_strlit("1,midsld,1220");
    reveal_strlit("1,sniext+1,host+1,midsld-2,midsld,midsld+2,endhost-1");
    reveal_strlit("method+2,midsld");
    reveal_strlit("method+2");
    reveal_strlit("tcp_md5");
    reveal_strlit("badsum");
    reveal_strlit("tcp_seq");
    reveal_strlit("tcp_ack");
    reveal_strlit("tcp_ts_up");
    reveal_strlit("tcp_ts");
    reveal_strlit("tcp_flags_unset");
    reveal_strlit("tcp_flags_set");
    assert("ip4_ttl"@[0] != "repeats"@[0]);
    assert("tcp_md5"@[0] != "repeats"@[0]);
    assert("tcp_seq"@[0] != "repeats"@[0]);
    assert("tcp_ack"@[0] != "repeats"@[0]);
    assert("urp"@[0] != "pos"@[0]);
    assert("tcp_md5"@[0] != "pos"@[0]);
    assert("badsum"@[0] != "repeats"@[0]);
    assert("tcp_ts"@[0] != "repeats"@[0]);
}

proof fn lemma_cheap_concat(a: Seq<ConfigView>, b: Seq<ConfigView>)
    requires
        cheap(a),
        cheap(b),
    ensures
        cheap(a + b),
{
    assert forall|k: int| 0 <= k < (a + b).len() implies config_cost(#[trigger] (a + b)[k]) <= 144 by {
        if k < a.len() {
            assert((a + b)[k] == a[k]);
        } else {
            assert((a + b)[k] == b[k - a.len()]);
        }
    }
}

proof fn lemma_cheap_concat_all(rows: Seq<Seq<ConfigView>>)
    requires
        forall|i: int| 0 <= i < rows.len() ==> cheap(#[trigger] rows[i]),
    ensures
        cheap(concat_configs(rows)),
    decreases rows.len(),
{
    if rows.len() == 0 {
        assert(cheap(Seq::<ConfigView>::empty()));
    } else {
        lemma_cheap_concat_all(rows.drop_last());
        lemma_cheap_concat(concat_configs(rows.drop_last()), rows.last());
    }
}

proof fn lemma_split_ok(function: Seq<char>, pos: Seq<char>)
    requires
        pos.len() <= 60,
    ensures
        action_ok(split_spec(function, pos)),
        split_spec(function, pos).args.len() <= 1,
{
    lemma_literals();
    lemma_with_arg_ok(bare(function), "pos"@, pos);
}

proof fn lemma_families_cheap()
    ensures
        cheap(candidate_views()),
{
    lemma_literals();
    lemma_split_ok("multisplit"@, "1,midsld"@);
    lemma_split_ok("multidisorder"@, "1,midsld"@);
    assert(action_ok(fake_blob()) && fake_blob().args.len() <= 1) by {
        lemma_with_arg_ok(bare("fake"@), "blob"@, "fake_default_tls"@);
    }
    assert forall|f: Seq<char>| #[trigger] cheap(split_family(f)) by {
        assert forall|k: int| 0 <= k < split_family(f).len() implies config_cost(
            #[trigger] split_family(f)[k],
        ) <= 144 by {
            let pos = tls_positions()[k];
            lemma_split_ok(f, pos);
            lemma_view_cost(
                name_of(seq![f, pos]),
                "Split the TLS hello at "@ + describe_spec(pos),
                "443"@,
                seq!["tls"@],
                "tls_client_hello"@,
                seq![split_spec(f, pos)],
            );
        }
    }
    assert(cheap(seqovl_family())) by {
        assert forall|k: int| 0 <= k < seqovl_family().len() implies config_cost(
            #[trigger] seqovl_family()[k],
        ) <= 144 by {
            let pos = tls_key_positions()[k];
            lemma_split_ok("multisplit"@, pos);
            lemma_with_arg_ok(split_spec("multisplit"@, pos), "seqovl"@, "1"@);
            let a = with_arg(split_spec("multisplit"@, pos), "seqovl"@, "1"@);
            lemma_view_cost(
                name_of(seq!["multisplit"@, "seqovl"@, pos]),
                "Split at "@ + describe_spec(pos) + ", overlapping the segment before it"@,
                "443"@,
                seq!["tls"@],
                "tls_client_hello"@,
                seq![a],
            );
        }
    }
    assert forall|f: Seq<char>| #[trigger] cheap(decoy_family(f)) by {
        let rows = foolings().map_values(
            |g: (Seq<char>, Seq<(Seq<char>, Seq<char>)>)| decoy_row(f, g),
        );
        assert forall|i: int| 0 <= i < rows.len() implies cheap(#[trigger] rows[i]) by {
            let g = foolings()[i];
            assert forall|j: int| 0 <= j < g.1.len() implies (#[trigger] g.1[j]).0 != "repeats"@
                && g.1[j].0 != "pos"@ by {
                assert(foolings()[i].1[j] == g.1[j]);
            }
            assert forall|k: int| 0 <= k < rows[i].len() implies config_cost(
                #[trigger] rows[i][k],
            ) <= 144 by {
                let pos = tls_key_positions()[k];
                lemma_split_ok(f, pos);
                lemma_with_args_ok(split_spec(f, pos), g.1);
                lemma_view_cost(
                    name_of(seq![f, g.0, pos]),
                    "Split at "@ + describe_spec(pos) + " with a decoy the server discards"@,
                    "443"@,
                    seq!["tls"@],
                    "tls_client_hello"@,
                    seq![with_args_spec(split_spec(f, pos), g.1)],
                );
            }
        }
        lemma_cheap_concat_all(rows);
    }
    assert(cheap(fake_family())) by {
        assert forall|k: int| 0 <= k < fake_family().len() implies config_cost(
            #[trigger] fake_family()[k],
        ) <= 144 by {
            let g = foolings()[k];
            assert forall|j: int| 0 <= j < g.1.len() implies (#[trigger] g.1[j]).0 != "repeats"@
                && g.1[j].0 != "pos"@ by {
                assert(foolings()[k].1[j] == g.1[j]);
            }
            lemma_with_args_ok(fake_blob(), g.1);
            let acts = seq![with_args_spec(fake_blob(), g.1), split_after_decoy()];
            lemma_view_cost(
                name_of(seq!["fake"@, g.0]),
                "Send a whole decoy hello the server discards, then split the real one"@,
                "443"@,
                seq!["tls"@],
                "tls_client_hello"@,
                acts,
            );
        }
    }
    assert(cheap(autottl_family())) by {
        assert forall|k: int| 0 <= k < autottl_family().len() implies config_cost(
            #[trigger] autottl_family()[k],
        ) <= 144 by {
            let d = decimal((k + 1) as nat);
            lemma_with_arg_ok(fake_blob(), "ip4_autottl"@, "-"@ + d + ",3-20"@);
            let a1 = with_arg(fake_blob(), "ip4_autottl"@, "-"@ + d + ",3-20"@);
            lemma_with_arg_ok(a1, "repeats"@, "2"@);
            let acts = seq![with_arg(a1, "repeats"@, "2"@), split_after_decoy()];
            lemma_view_cost(
                name_of(seq!["fake"@, "autottl"@, d]),
                "Send a decoy that expires before the server sees it, then split the real hello"@,
                "443"@,
                seq!["tls"@],
                "tls_client_hello"@,
                acts,
            );
        }
    }
    assert(cheap(ttl_family())) by {
        assert forall|k: int| 0 <= k < ttl_family().len() implies config_cost(
            #[trigger] ttl_family()[k],
        ) <= 144 by {
            let t = decimal((k + 1) as nat);
            lemma_with_arg_ok(fake_blob(), "ip4_ttl"@, t);
            let a1 = with_arg(fake_blob(), "ip4_ttl"@, t);
            lemma_with_arg_ok(a1, "repeats"@, "2"@);
            let acts = seq![with_arg(a1, "repeats"@, "2"@), split_after_decoy()];
            lemma_view_cost(
                name_of(seq!["fake"@, "ttl"@, t]),
                "Send a decoy that expires "@ + t + " hops away, then split the real hello"@,
                "443"@,
                seq!["tls"@],
                "tls_client_hello"@,
                acts,
            );
        }
    }
    let window = with_arg(with_arg(bare("wssize"@), "wsize"@, "1"@), "scale"@, "6"@);
    assert(action_ok(window)) by {
        lemma_with_arg_ok(bare("wssize"@), "wsize"@, "1"@);
        lemma_with_arg_ok(with_arg(bare("wssize"@), "wsize"@, "1"@), "scale"@, "6"@);
    }
    assert forall|f: Seq<char>| #[trigger] cheap(wssize_family(f)) by {
        assert forall|k: int| 0 <= k < wssize_family(f).len() implies config_cost(
            #[trigger] wssize_family(f)[k],
        ) <= 144 by {
            let pos = tls_key_positions()[k];
            lemma_split_ok(f, pos);
            lemma_view_cost(
                name_of(seq!["wssize"@, f, pos]),
                "Shrink the window so the hello arrives in pieces, split at "@ + describe_spec(pos),
                "443"@,
                seq!["tls"@],
                "tls_client_hello"@,
                seq![window, split_spec(f, pos)],
            );
        }
    }
    assert(cheap(extras())) by {
        let syn_tls = with_arg(bare("syndata"@), "blob"@, "fake_default_tls"@);
        let syn_http = with_arg(bare("syndata"@), "blob"@, "fake_default_http"@);
        lemma_with_arg_ok(bare("syndata"@), "blob"@, "fake_default_tls"@);
        lemma_with_arg_ok(bare("syndata"@), "blob"@, "fake_default_http"@);
        let seg1 = with_arg(bare("tcpseg"@), "pos"@, "0,-1"@);
        lemma_with_arg_ok(bare("tcpseg"@), "pos"@, "0,-1"@);
        lemma_with_arg_ok(seg1, "seqovl"@, "1"@);
        let seg2 = with_arg(bare("tcpseg"@), "pos"@, "0,midsld"@);
        lemma_with_arg_ok(bare("tcpseg"@), "pos"@, "0,midsld"@);
        lemma_with_arg_ok(seg2, "ip_id"@, "rnd"@);
        lemma_with_arg_ok(bare("oob"@), "urp"@, "1"@);
        let e = extras();
        lemma_view_cost(
            "syndata"@,
            "Put a decoy hello in the SYN packet, before the real one"@,
            "443"@,
            seq!["tls"@],
            "tls_client_hello"@,
            seq![syn_tls, split_spec("multisplit"@, "1,midsld"@)],
        );
        lemma_view_cost(
            "syndata-http"@,
            "Put a decoy HTTP request in the SYN packet, before the real hello"@,
            "443"@,
            seq!["tls"@],
            "tls_client_hello"@,
            seq![syn_http, split_spec("multisplit"@, "1,midsld"@)],
        );
        lemma_view_cost(
            "tcpseg-seqovl"@,
            "Re-segment the hello with the first piece overlapping the one before it"@,
            "443"@,
            seq!["tls"@],
            "tls_client_hello"@,
            seq![with_arg(seg1, "seqovl"@, "1"@)],
        );
        lemma_view_cost(
            "tcpseg-midsld"@,
            "Re-segment the hello at the domain name"@,
            "443"@,
            seq!["tls"@],
            "tls_client_hello"@,
            seq![with_arg(seg2, "ip_id"@, "rnd"@)],
        );
        lemma_view_cost(
            "oob"@,
            "Send an out-of-band byte the inspector reads and the server ignores"@,
            "443"@,
            seq!["tls"@],
            "tls_client_hello"@,
            seq![bare("oob"@)],
        );
        lemma_view_cost(
            "oob-urp"@,
            "The same out-of-band byte, with the urgent pointer moved"@,
            "443"@,
            seq!["tls"@],
            "tls_client_hello"@,
            seq![with_arg(bare("oob"@), "urp"@, "1"@)],
        );
        assert forall|k: int| 0 <= k < e.len() implies config_cost(#[trigger] e[k]) <= 144 by {}
    }
    assert forall|f: Seq<char>| #[trigger] cheap(http_split_family(f)) by {
        assert forall|k: int| 0 <= k < http_split_family(f).len() implies config_cost(
            #[trigger] http_split_family(f)[k],
        ) <= 144 by {
            let pos = http_positions()[k];
            lemma_split_ok(f, pos);
            lemma_view_cost(
                name_of(seq!["http"@, f, pos]),
                "Split the request at "@ + describe_spec(pos),
                "80"@,
                seq!["http"@],
                "http_req"@,
                seq![split_spec(f, pos)],
            );
        }
    }
    assert(cheap(seq![hostcase()])) by {
        lemma_split_ok("multisplit"@, "method+2,midsld"@);
        lemma_view_cost(
            "http-hostcase"@,
            "Change the case of the Host header, which some inspectors match literally"@,
            "80"@,
            seq!["http"@],
            "http_req"@,
            seq![bare("http_hostcase"@), split_spec("multisplit"@, "method+2,midsld"@)],
        );
    }
    let a1 = split_family("multisplit"@) + split_family("multidisorder"@);
    lemma_cheap_concat(split_family("multisplit"@), split_family("multidisorder"@));
    let a2 = a1 + seqovl_family();
    lemma_cheap_concat(a1, seqovl_family());
    let a3 = a2 + decoy_family("fakedsplit"@);
    lemma_cheap_concat(a2, decoy_family("fakedsplit"@));
    let a4 = a3 + decoy_family("fakeddisorder"@);
    lemma_cheap_concat(a3, decoy_family("fakeddisorder"@));
    let a5 = a4 + fake_family();
    lemma_cheap_concat(a4, fake_family());
    let a6 = a5 + autottl_family();
    lemma_cheap_concat(a5, autottl_family());
    let a7 = a6 + ttl_family();
    lemma_cheap_concat(a6, ttl_family());
    let a8 = a7 + wssize_family("multisplit"@);
    lemma_cheap_concat(a7, wssize_family("multisplit"@));
    let a9 = a8 + wssize_family("multidisorder"@);
    lemma_cheap_concat(a8, wssize_family("multidisorder"@));
    let a10 = a9 + extras();
    lemma_cheap_concat(a9, extras());
    let a11 = a10 + http_split_family("multisplit"@);
    lemma_cheap_concat(a10, http_split_family("multisplit"@));
    let a12 = a11 + http_split_family("multidisorder"@);
    lemma_cheap_concat(a11, http_split_family("multidisorder"@));
    lemma_cheap_concat(a12, seq![hostcase()]);
}

// ---------------------------------------------------------------------------------------------
// Ranking
// ---------------------------------------------------------------------------------------------

/// A candidate and what it costs to run.
#[derive(Debug, Clone)]
pub struct Candidate {
    pub config: Config,
    pub cost: u32,
}

/// The candidate list, in order, with each entry's cost.
pub fn ranked() -> (r: Vec<Candidate>)
    ensures
        r@.len() == candidate_views().len(),
        forall|k: int|
            0 <= k < r@.len() ==> (#[trigger] r@[k]).config@ == candidate_views()[k] && r@[k].cost
                == config_cost(candidate_views()[k]),
{
    proof {
        lemma_families_cheap();
    }
    let mut rest = candidates();
    let ghost all = candidate_views();
    let n = rest.len();
    let mut out: Vec<Candidate> = Vec::new();
    let mut i: usize = 0;
    while i < n
        invariant
            n == all.len(),
            all == candidate_views(),
            cheap(all),
            i <= n,
            rest@.len() + i == n,
            config_views(rest@) == all.skip(i as int),
            out@.len() == i,
            forall|k: int|
                0 <= k < i ==> (#[trigger] out@[k]).config@ == all[k] && out@[k].cost == config_cost(
                    all[k],
                ),
        decreases n - i,
    {
        let ghost before = rest@;
        assert(config_views(before)[0] == all.skip(i as int)[0]);
        let config = rest.remove(0);
        assert(config@ == all[i as int]);
        let cost = cost(&config);
        out.push(Candidate { config, cost });
        assert forall|k: int| 0 <= k < rest@.len() implies config_views(rest@)[k] == all.skip(
            i + 1,
        )[k] by {
            assert(rest@[k] == before[k + 1]);
            assert(config_views(before)[k + 1] == all.skip(i as int)[k + 1]);
        }
        assert(config_views(rest@) =~= all.skip(i + 1));
        i = i + 1;
    }
    out
}

// ---------------------------------------------------------------------------------------------
// Every candidate is a config this build accepts
// ---------------------------------------------------------------------------------------------

/// Whether every character of `s` from index `i` on may stand in a token.
spec fn token_from(s: Seq<char>, i: int) -> bool
    decreases s.len() - i,
{
    if i < 0 || i >= s.len() {
        true
    } else {
        is_token_char(s[i]) && token_from(s, i + 1)
    }
}

/// A character an argument value may hold: no line break, no NUL, no `:`.
spec fn is_plain_char(c: char) -> bool {
    c != '\n' && c != '\r' && c != '\0' && c != ':'
}

/// Whether every character of `s` from index `i` on is plain.
spec fn plain_from(s: Seq<char>, i: int) -> bool
    decreases s.len() - i,
{
    if i < 0 || i >= s.len() {
        true
    } else {
        is_plain_char(s[i]) && plain_from(s, i + 1)
    }
}

proof fn lemma_token_from(s: Seq<char>, i: int)
    requires
        0 <= i <= s.len(),
        token_from(s, i),
    ensures
        forall|j: int| i <= j < s.len() ==> is_token_char(#[trigger] s[j]),
    decreases s.len() - i,
{
    if i < s.len() {
        lemma_token_from(s, i + 1);
    }
}

proof fn lemma_plain_from(s: Seq<char>, i: int)
    requires
        0 <= i <= s.len(),
        plain_from(s, i),
    ensures
        forall|j: int| i <= j < s.len() ==> is_plain_char(#[trigger] s[j]),
    decreases s.len() - i,
{
    if i < s.len() {
        lemma_plain_from(s, i + 1);
    }
}

/// An argument value the config checks accept.
spec fn plain(s: Seq<char>) -> bool {
    !s.contains(':') && is_safe_value(s)
}

proof fn lemma_token(s: Seq<char>)
    requires
        s.len() > 0,
        token_from(s, 0),
    ensures
        is_token(s),
{
    lemma_token_from(s, 0);
}

proof fn lemma_plain(s: Seq<char>)
    requires
        plain_from(s, 0),
    ensures
        plain(s),
{
    lemma_plain_from(s, 0);
    if s.contains(':') {
        let k = choose|k: int| 0 <= k < s.len() && s[k] == ':';
        assert(is_plain_char(s[k]));
    }
    if s.contains('\n') {
        let k = choose|k: int| 0 <= k < s.len() && s[k] == '\n';
        assert(is_plain_char(s[k]));
    }
    if s.contains('\r') {
        let k = choose|k: int| 0 <= k < s.len() && s[k] == '\r';
        assert(is_plain_char(s[k]));
    }
    if s.contains('\0') {
        let k = choose|k: int| 0 <= k < s.len() && s[k] == '\0';
        assert(is_plain_char(s[k]));
    }
}

proof fn lemma_plain_concat(a: Seq<char>, b: Seq<char>)
    requires
        plain(a),
        plain(b),
    ensures
        plain(a + b),
{
    lemma_contains_concat(a, b, ':');
    lemma_contains_concat(a, b, '\n');
    lemma_contains_concat(a, b, '\r');
    lemma_contains_concat(a, b, '\0');
}

/// The argument keys of the sweep are tokens.
proof fn lemma_key_literals()
    ensures
        is_token("pos"@),
        is_token("seqovl"@),
        is_token("blob"@),
        is_token("tcp_md5"@),
        is_token("badsum"@),
        is_token("tcp_seq"@),
        is_token("tcp_ack"@),
        is_token("tcp_ts_up"@),
        is_token("tcp_ts"@),
        is_token("tcp_flags_unset"@),
        is_token("tcp_flags_set"@),
        is_token("ip4_autottl"@),
        is_token("repeats"@),
        is_token("ip4_ttl"@),
        is_token("wsize"@),
        is_token("scale"@),
        is_token("ip_id"@),
        is_token("urp"@),
{
    reveal_with_fuel(token_from, 20);
    reveal_strlit("pos");
    reveal_strlit("seqovl");
    reveal_strlit("blob");
    reveal_strlit("tcp_md5");
    reveal_strlit("badsum");
    reveal_strlit("tcp_seq");
    reveal_strlit("tcp_ack");
    reveal_strlit("tcp_ts_up");
    reveal_strlit("tcp_ts");
    reveal_strlit("tcp_flags_unset");
    reveal_strlit("tcp_flags_set");
    reveal_strlit("ip4_autottl");
    reveal_strlit("repeats");
    reveal_strlit("ip4_ttl");
    reveal_strlit("wsize");
    reveal_strlit("scale");
    reveal_strlit("ip_id");
    reveal_strlit("urp");
    lemma_token("pos"@);
    lemma_token("seqovl"@);
    lemma_token("blob"@);
    lemma_token("tcp_md5"@);
    lemma_token("badsum"@);
    lemma_token("tcp_seq"@);
    lemma_token("tcp_ack"@);
    lemma_token("tcp_ts_up"@);
    lemma_token("tcp_ts"@);
    lemma_token("tcp_flags_unset"@);
    lemma_token("tcp_flags_set"@);
    lemma_token("ip4_autottl"@);
    lemma_token("repeats"@);
    lemma_token("ip4_ttl"@);
    lemma_token("wsize"@);
    lemma_token("scale"@);
    lemma_token("ip_id"@);
    lemma_token("urp"@);
}


/// The argument values of the sweep hold no line break, NUL or `:`.
proof fn lemma_value_literals()
    ensures
        forall|i: int| 0 <= i < tls_positions().len() ==> plain(#[trigger] tls_positions()[i]),
        forall|i: int| 0 <= i < tls_key_positions().len() ==> plain(#[trigger] tls_key_positions()[i]),
        forall|i: int| 0 <= i < http_positions().len() ==> plain(#[trigger] http_positions()[i]),
        plain("1,midsld"@),
        plain("method+2,midsld"@),
        plain("0,-1"@),
        plain("0,midsld"@),
        plain(""@),
        plain("-3000"@),
        plain("1000000"@),
        plain("-66000"@),
        plain("-1000"@),
        plain("ACK"@),
        plain("SYN"@),
        plain("fake_default_tls"@),
        plain("fake_default_http"@),
        plain("1"@),
        plain("2"@),
        plain("6"@),
        plain("rnd"@),
        plain("-"@),
        plain(",3-20"@),
        plain("443"@),
        plain("80"@),
{
    reveal_with_fuel(plain_from, 60);
    reveal_strlit("1,midsld");
    reveal_strlit("midsld");
    reveal_strlit("sniext+1");
    reveal_strlit("sniext+4");
    reveal_strlit("host+1");
    reveal_strlit("2");
    reveal_strlit("1");
    reveal_strlit("1,midsld,1220");
    reveal_strlit("1,sniext+1,host+1,midsld-2,midsld,midsld+2,endhost-1");
    reveal_strlit("method+2,midsld");
    reveal_strlit("method+2");
    reveal_strlit("0,-1");
    reveal_strlit("0,midsld");
    reveal_strlit("");
    reveal_strlit("-3000");
    reveal_strlit("1000000");
    reveal_strlit("-66000");
    reveal_strlit("-1000");
    reveal_strlit("ACK");
    reveal_strlit("SYN");
    reveal_strlit("fake_default_tls");
    reveal_strlit("fake_default_http");
    reveal_strlit("6");
    reveal_strlit("rnd");
    reveal_strlit("-");
    reveal_strlit(",3-20");
    reveal_strlit("443");
    reveal_strlit("80");
    lemma_plain("1,midsld"@);
    lemma_plain("midsld"@);
    lemma_plain("sniext+1"@);
    lemma_plain("sniext+4"@);
    lemma_plain("host+1"@);
    lemma_plain("2"@);
    lemma_plain("1"@);
    lemma_plain("1,midsld,1220"@);
    lemma_plain("1,sniext+1,host+1,midsld-2,midsld,midsld+2,endhost-1"@);
    lemma_plain("method+2,midsld"@);
    lemma_plain("method+2"@);
    lemma_plain("0,-1"@);
    lemma_plain("0,midsld"@);
    lemma_plain(""@);
    lemma_plain("-3000"@);
    lemma_plain("1000000"@);
    lemma_plain("-66000"@);
    lemma_plain("-1000"@);
    lemma_plain("ACK"@);
    lemma_plain("SYN"@);
    lemma_plain("fake_default_tls"@);
    lemma_plain("fake_default_http"@);
    lemma_plain("6"@);
    lemma_plain("rnd"@);
    lemma_plain("-"@);
    lemma_plain(",3-20"@);
    lemma_plain("443"@);
    lemma_plain("80"@);
}

proof fn lemma_lookup_found(t: Seq<(Seq<char>, Category)>, name: Seq<char>, i: int)
    requires
        0 <= i < t.len(),
        t[i].0 == name,
    ensures
        lookup_function(t, name) is Some,
    decreases i,
{
    if t[0].0 != name {
        assert(t.skip(1)[i - 1] == t[i]);
        lemma_lookup_found(t.skip(1), name, i - 1);
    }
}

/// The functions, payloads, protocols and name parts of the sweep: tokens, the functions known
/// to this build, and the words a name starts with beginning with a letter.
proof fn lemma_word_literals()
    ensures
        is_token("multisplit"@) && is_known_function("multisplit"@) && is_ascii_alnum("multisplit"@[0]),
        is_token("multidisorder"@) && is_known_function("multidisorder"@) && is_ascii_alnum(
            "multidisorder"@[0],
        ),
        is_token("fakedsplit"@) && is_known_function("fakedsplit"@) && is_ascii_alnum("fakedsplit"@[0]),
        is_token("fakeddisorder"@) && is_known_function("fakeddisorder"@) && is_ascii_alnum(
            "fakeddisorder"@[0],
        ),
        is_token("fake"@) && is_known_function("fake"@) && is_ascii_alnum("fake"@[0]),
        is_token("wssize"@) && is_known_function("wssize"@) && is_ascii_alnum("wssize"@[0]),
        is_token("syndata"@) && is_known_function("syndata"@),
        is_token("tcpseg"@) && is_known_function("tcpseg"@),
        is_token("oob"@) && is_known_function("oob"@),
        is_token("http_hostcase"@) && is_known_function("http_hostcase"@),
        is_token("http"@) && is_ascii_alnum("http"@[0]) && "http"@.len() > 0,
        "multisplit"@.len() > 0 && "multidisorder"@.len() > 0 && "fakedsplit"@.len() > 0
            && "fakeddisorder"@.len() > 0 && "fake"@.len() > 0 && "wssize"@.len() > 0,
        is_token("tls"@),
        is_token("tls_client_hello"@),
        is_token("http_req"@),
{
    reveal_with_fuel(token_from, 25);
    reveal_strlit("multisplit");
    reveal_strlit("multidisorder");
    reveal_strlit("fakedsplit");
    reveal_strlit("fakeddisorder");
    reveal_strlit("fake");
    reveal_strlit("wssize");
    reveal_strlit("syndata");
    reveal_strlit("tcpseg");
    reveal_strlit("oob");
    reveal_strlit("http_hostcase");
    reveal_strlit("http");
    reveal_strlit("tls");
    reveal_strlit("tls_client_hello");
    reveal_strlit("http_req");
    lemma_token("multisplit"@);
    lemma_token("multidisorder"@);
    lemma_token("fakedsplit"@);
    lemma_token("fakeddisorder"@);
    lemma_token("fake"@);
    lemma_token("wssize"@);
    lemma_token("syndata"@);
    lemma_token("tcpseg"@);
    lemma_token("oob"@);
    lemma_token("http_hostcase"@);
    lemma_token("http"@);
    lemma_token("tls"@);
    lemma_token("tls_client_hello"@);
    lemma_token("http_req"@);
    let t = function_table();
    lemma_lookup_found(t, "http_hostcase"@, 3);
    lemma_lookup_found(t, "wssize"@, 8);
    lemma_lookup_found(t, "syndata"@, 9);
    lemma_lookup_found(t, "fake"@, 11);
    lemma_lookup_found(t, "multisplit"@, 13);
    lemma_lookup_found(t, "multidisorder"@, 14);
    lemma_lookup_found(t, "fakedsplit"@, 16);
    lemma_lookup_found(t, "fakeddisorder"@, 17);
    lemma_lookup_found(t, "tcpseg"@, 19);
    lemma_lookup_found(t, "oob"@, 20);
}

/// The names written out whole are tokens that start with a letter.
proof fn lemma_name_literals()
    ensures
        is_token("syndata"@) && is_ascii_alnum("syndata"@[0]),
        is_token("syndata-http"@) && is_ascii_alnum("syndata-http"@[0]),
        is_token("tcpseg-seqovl"@) && is_ascii_alnum("tcpseg-seqovl"@[0]),
        is_token("tcpseg-midsld"@) && is_ascii_alnum("tcpseg-midsld"@[0]),
        is_token("oob"@) && is_ascii_alnum("oob"@[0]),
        is_token("oob-urp"@) && is_ascii_alnum("oob-urp"@[0]),
        is_token("http-hostcase"@) && is_ascii_alnum("http-hostcase"@[0]),
{
    reveal_with_fuel(token_from, 20);
    reveal_strlit("syndata");
    reveal_strlit("syndata-http");
    reveal_strlit("tcpseg-seqovl");
    reveal_strlit("tcpseg-midsld");
    reveal_strlit("oob");
    reveal_strlit("oob-urp");
    reveal_strlit("http-hostcase");
    lemma_token("syndata"@);
    lemma_token("syndata-http"@);
    lemma_token("tcpseg-seqovl"@);
    lemma_token("tcpseg-midsld"@);
    lemma_token("oob"@);
    lemma_token("oob-urp"@);
    lemma_token("http-hostcase"@);
}

proof fn lemma_squash_chars(s: Seq<char>, dashed: bool)
    ensures
        forall|j: int|
            0 <= j < squash(s, dashed).len() ==> is_ascii_alnum(#[trigger] squash(s, dashed)[j])
                || squash(s, dashed)[j] == '-',
    decreases s.len(),
{
    if s.len() > 0 {
        lemma_squash_chars(s.skip(1), false);
        lemma_squash_chars(s.skip(1), true);
        let r = squash(s, dashed);
        if is_ascii_alnum(s[0]) {
            let rest = squash(s.skip(1), false);
            assert(r == seq![s[0]] + rest);
            assert forall|j: int| 0 <= j < r.len() implies is_ascii_alnum(#[trigger] r[j]) || r[j]
                == '-' by {
                if j > 0 {
                    assert(r[j] == rest[j - 1]);
                }
            }
        } else if !dashed {
            let rest = squash(s.skip(1), true);
            assert(r == seq!['-'] + rest);
            assert forall|j: int| 0 <= j < r.len() implies is_ascii_alnum(#[trigger] r[j]) || r[j]
                == '-' by {
                if j > 0 {
                    assert(r[j] == rest[j - 1]);
                }
            }
        } else {
            assert(r == squash(s.skip(1), true));
        }
    }
}

proof fn lemma_trim_dashes(t: Seq<char>)
    ensures
        trim_dashes(t).len() <= t.len(),
        forall|j: int| 0 <= j < trim_dashes(t).len() ==> #[trigger] trim_dashes(t)[j] == t[j],
        t.len() > 0 && t[0] != '-' ==> trim_dashes(t).len() > 0,
    decreases t.len(),
{
    if t.len() > 0 && t.last() == '-' {
        lemma_trim_dashes(t.drop_last());
        if t.len() == 1 {
            assert(t.last() == t[0]);
        }
    }
}

/// A name built from parts of which the first starts with a letter or digit is a token starting
/// with one.
proof fn lemma_name_of(parts: Seq<Seq<char>>)
    requires
        parts.len() >= 2,
        parts[0].len() > 0,
        is_ascii_alnum(parts[0][0]),
    ensures
        is_token(name_of(parts)),
        is_ascii_alnum(name_of(parts)[0]),
{
    let dash: Seq<char> = "-"@;
    lemma_join_front(parts, dash);
    let j = seq_join(parts, dash);
    assert(j[0] == parts[0][0]);
    let q = squash(j, true);
    assert(q =~= seq![j[0]] + squash(j.skip(1), false));
    lemma_squash_chars(j, true);
    lemma_trim_dashes(q);
    let n = name_of(parts);
    assert(n[0] == q[0]);
    assert forall|k: int| 0 <= k < n.len() implies is_token_char(#[trigger] n[k]) by {
        assert(n[k] == q[k]);
    }
}

/// A token that starts with a letter or digit is a name a config may have.
proof fn lemma_good_name(n: Seq<char>)
    requires
        is_token(n),
        is_ascii_alnum(n[0]),
    ensures
        !is_bad_name(n),
{
    assert(!is_ws(n[0]));
    if n.contains('/') {
        let k = choose|k: int| 0 <= k < n.len() && n[k] == '/';
        assert(is_token_char(n[k]));
    }
    if n.contains('\\') {
        let k = choose|k: int| 0 <= k < n.len() && n[k] == '\\';
        assert(is_token_char(n[k]));
    }
    if n.contains('\0') {
        let k = choose|k: int| 0 <= k < n.len() && n[k] == '\0';
        assert(is_token_char(n[k]));
    }
}

/// An argument the config checks accept.
spec fn arg_ok(e: (Seq<char>, Seq<char>)) -> bool {
    is_token(e.0) && plain(e.1)
}

/// An action of the sweep before its payload is set: a function this build knows, and arguments
/// the config checks accept.
spec fn sound_action(a: ActionView) -> bool {
    &&& is_token(a.function)
    &&& is_known_function(a.function)
    &&& forall|i: int| 0 <= i < a.args.len() ==> arg_ok(#[trigger] a.args[i])
}

/// Every entry after setting `key` is the new one or an entry from before.
proof fn lemma_insert_entries(s: Seq<(Seq<char>, Seq<char>)>, key: Seq<char>, value: Seq<char>)
    ensures
        forall|j: int|
            0 <= j < args_insert(s, key, value).len() ==> #[trigger] args_insert(s, key, value)[j]
                == (key, value) || exists|m: int|
                0 <= m < s.len() && s[m] == args_insert(s, key, value)[j],
    decreases s.len(),
{
    if s.len() > 0 {
        let t = s.skip(1);
        lemma_insert_entries(t, key, value);
        let r = args_insert(s, key, value);
        assert forall|j: int| 0 <= j < r.len() implies #[trigger] r[j] == (key, value) || exists|
            m: int,
        | 0 <= m < s.len() && s[m] == r[j] by {
            if s[0].0 == key {
                if j > 0 {
                    assert(r[j] == s[j]);
                }
            } else if lex_lt(key, s[0].0) {
                if j > 0 {
                    assert(r[j] == s[j - 1]);
                }
            } else {
                if j == 0 {
                    assert(r[0] == s[0]);
                } else {
                    let rt = args_insert(t, key, value);
                    assert(r[j] == rt[j - 1]);
                    if rt[j - 1] != (key, value) {
                        let m = choose|m: int| 0 <= m < t.len() && t[m] == rt[j - 1];
                        assert(s[m + 1] == t[m]);
                    }
                }
            }
        }
    }
}

proof fn lemma_with_arg_sound(a: ActionView, key: Seq<char>, value: Seq<char>)
    requires
        sound_action(a),
        is_token(key),
        plain(value),
    ensures
        sound_action(with_arg(a, key, value)),
{
    lemma_insert_entries(a.args, key, value);
    let r = with_arg(a, key, value).args;
    assert forall|i: int| 0 <= i < r.len() implies arg_ok(#[trigger] r[i]) by {
        if r[i] != (key, value) {
            let m = choose|m: int| 0 <= m < a.args.len() && a.args[m] == r[i];
            assert(arg_ok(a.args[m]));
        }
    }
}

proof fn lemma_with_args_sound(a: ActionView, args: Seq<(Seq<char>, Seq<char>)>)
    requires
        sound_action(a),
        forall|i: int| 0 <= i < args.len() ==> arg_ok(#[trigger] args[i]),
    ensures
        sound_action(with_args_spec(a, args)),
    decreases args.len(),
{
    if args.len() > 0 {
        assert(arg_ok(args[0]));
        lemma_with_arg_sound(a, args[0].0, args[0].1);
        let rest = args.skip(1);
        assert forall|i: int| 0 <= i < rest.len() implies arg_ok(#[trigger] rest[i]) by {
            assert(rest[i] == args[i + 1]);
        }
        lemma_with_args_sound(with_arg(a, args[0].0, args[0].1), rest);
    }
}

proof fn lemma_known_actions_quiet(name: Seq<char>, acts: Seq<ActionView>)
    requires
        forall|i: int| 0 <= i < acts.len() ==> is_known_function(#[trigger] acts[i].function),
    ensures
        action_warnings(name, acts) == Seq::<WarningView>::empty(),
    decreases acts.len(),
{
    if acts.len() > 0 {
        assert(is_known_function(acts[acts.len() - 1].function));
        lemma_known_actions_quiet(name, acts.drop_last());
        assert(action_warnings(name, acts) =~= Seq::<WarningView>::empty());
    }
}

/// A candidate the user can run as it stands: it passes validation, matches this build's engine
/// interface, lints clean, and every action names a function this build knows.
pub open spec fn candidate_ok(c: ConfigView) -> bool {
    &&& config_error(c) is None
    &&& compat_error(c) is None
    &&& lint_spec(c) == Seq::<WarningView>::empty()
    &&& forall|i: int, j: int|
        0 <= i < c.strategies.len() && 0 <= j < c.strategies[i].actions.len() ==> is_known_function(
            #[trigger] c.strategies[i].actions[j].function,
        )
}

/// One enabled strategy, claiming TCP ports, with at least one action.
pub open spec fn single_profile(c: ConfigView) -> bool {
    &&& c.strategies.len() == 1
    &&& c.strategies[0].enabled
    &&& c.strategies[0].filter.tcp is Some
    &&& c.strategies[0].actions.len() >= 1
}

/// Both of the above: what each family is shown to be, member by member.
spec fn fine(c: ConfigView) -> bool {
    candidate_ok(c) && single_profile(c)
}

spec fn all_fine(s: Seq<ConfigView>) -> bool {
    forall|k: int| 0 <= k < s.len() ==> fine(#[trigger] s[k])
}

proof fn lemma_fine_view(
    name: Seq<char>,
    notes: Seq<char>,
    port: Seq<char>,
    l7: Seq<Seq<char>>,
    payload: Seq<char>,
    acts: Seq<ActionView>,
)
    requires
        is_token(name),
        is_ascii_alnum(name[0]),
        plain(port),
        forall|i: int| 0 <= i < l7.len() ==> is_token(#[trigger] l7[i]),
        is_token(payload),
        acts.len() >= 1,
        forall|i: int| 0 <= i < acts.len() ==> sound_action(#[trigger] acts[i]),
    ensures
        fine(strategy_config_view(name, notes, port, l7, payload, acts)),
{
    let c = strategy_config_view(name, notes, port, l7, payload, acts);
    let s = c.strategies[0];
    let mapped = acts.map_values(|a: ActionView| ActionView { payload: seq![payload], ..a });
    assert(s.actions == mapped);
    lemma_good_name(name);
    // the filter
    let f = s.filter;
    let fixed = seq![
        opt_value_error("filter.l3"@, f.l3),
        opt_value_error("filter.tcp"@, f.tcp),
        opt_value_error("filter.udp"@, f.udp),
        opt_value_error("filter.hostlist"@, f.hostlist),
        opt_value_error("filter.hostlist_exclude"@, f.hostlist_exclude),
        opt_value_error("filter.hostlist_auto"@, f.hostlist_auto),
        opt_value_error("filter.ipset"@, f.ipset),
        opt_value_error("filter.ipset_exclude"@, f.ipset_exclude),
    ];
    lemma_first_error_none(fixed);
    let protos = f.l7.map_values(|p: Seq<char>| token_error("filter.l7"@, p));
    assert forall|i: int| 0 <= i < protos.len() implies (#[trigger] protos[i]) is None by {
        assert(is_token(l7[i]));
    }
    lemma_first_error_none(protos);
    assert(filter_error(f) is None);
    // the actions
    assert forall|i: int| 0 <= i < mapped.len() implies action_error(#[trigger] mapped[i]) is None by {
        let a = mapped[i];
        assert(sound_action(acts[i]));
        let pays = a.payload.map_values(|p: Seq<char>| token_error("action payload"@, p));
        assert(pays[0] is None);
        lemma_first_error_none(pays);
        let args = a.args.map_values(|e: (Seq<char>, Seq<char>)| arg_error(e.0, e.1));
        assert forall|k: int| 0 <= k < args.len() implies (#[trigger] args[k]) is None by {
            assert(arg_ok(acts[i].args[k]));
        }
        lemma_first_error_none(args);
    }
    let errs = mapped.map_values(|a: ActionView| action_error(a));
    assert forall|i: int| 0 <= i < errs.len() implies (#[trigger] errs[i]) is None by {
        assert(action_error(mapped[i]) is None);
    }
    lemma_first_error_none(errs);
    assert(strategy_error(s) is None);
    valid_means_every_field_checked(c);
    // the lint
    assert forall|i: int| 0 <= i < mapped.len() implies is_known_function(
        #[trigger] mapped[i].function,
    ) by {
        assert(sound_action(acts[i]));
    }
    lemma_known_actions_quiet(s.name, mapped);
    assert(c.strategies.drop_last() =~= Seq::<StrategyView>::empty());
    assert(strategies_warnings(Seq::<StrategyView>::empty()) =~= Seq::<WarningView>::empty());
    assert(c.strategies.last() == s);
    assert(strategy_warnings(s) =~= Seq::<WarningView>::empty());
    assert(strategies_warnings(c.strategies) =~= Seq::<WarningView>::empty());
    assert(lint_spec(c) =~= Seq::<WarningView>::empty());
    assert forall|i: int, j: int|
        0 <= i < c.strategies.len() && 0 <= j < c.strategies[i].actions.len() implies is_known_function(
        #[trigger] c.strategies[i].actions[j].function,
    ) by {
        assert(is_known_function(mapped[j].function));
    }
}

proof fn lemma_fine_concat(a: Seq<ConfigView>, b: Seq<ConfigView>)
    requires
        all_fine(a),
        all_fine(b),
    ensures
        all_fine(a + b),
{
    assert forall|k: int| 0 <= k < (a + b).len() implies fine(#[trigger] (a + b)[k]) by {
        if k < a.len() {
            assert((a + b)[k] == a[k]);
        } else {
            assert((a + b)[k] == b[k - a.len()]);
        }
    }
}

proof fn lemma_fine_concat_all(rows: Seq<Seq<ConfigView>>)
    requires
        forall|i: int| 0 <= i < rows.len() ==> all_fine(#[trigger] rows[i]),
    ensures
        all_fine(concat_configs(rows)),
    decreases rows.len(),
{
    if rows.len() == 0 {
        assert(all_fine(Seq::<ConfigView>::empty()));
    } else {
        lemma_fine_concat_all(rows.drop_last());
        lemma_fine_concat(concat_configs(rows.drop_last()), rows.last());
    }
}

proof fn lemma_decimal_plain(n: nat)
    ensures
        plain(decimal(n)),
        decimal(n).len() > 0,
{
    lemma_decimal_digits(n);
    let d = decimal(n);
    if d.contains(':') {
        let k = choose|k: int| 0 <= k < d.len() && d[k] == ':';
        assert(is_digit(d[k]));
    }
    if d.contains('\n') {
        let k = choose|k: int| 0 <= k < d.len() && d[k] == '\n';
        assert(is_digit(d[k]));
    }
    if d.contains('\r') {
        let k = choose|k: int| 0 <= k < d.len() && d[k] == '\r';
        assert(is_digit(d[k]));
    }
    if d.contains('\0') {
        let k = choose|k: int| 0 <= k < d.len() && d[k] == '\0';
        assert(is_digit(d[k]));
    }
}

proof fn lemma_split_sound(function: Seq<char>, pos: Seq<char>)
    requires
        is_token(function),
        is_known_function(function),
        plain(pos),
    ensures
        sound_action(split_spec(function, pos)),
{
    lemma_key_literals();
    lemma_with_arg_sound(bare(function), "pos"@, pos);
}

proof fn lemma_tls_fine(name: Seq<char>, notes: Seq<char>, acts: Seq<ActionView>)
    requires
        is_token(name),
        is_ascii_alnum(name[0]),
        acts.len() >= 1,
        forall|i: int| 0 <= i < acts.len() ==> sound_action(#[trigger] acts[i]),
    ensures
        fine(tls_view(name, notes, acts)),
{
    lemma_word_literals();
    lemma_value_literals();
    lemma_fine_view(name, notes, "443"@, seq!["tls"@], "tls_client_hello"@, acts);
}

proof fn lemma_http_fine(name: Seq<char>, notes: Seq<char>, acts: Seq<ActionView>)
    requires
        is_token(name),
        is_ascii_alnum(name[0]),
        acts.len() >= 1,
        forall|i: int| 0 <= i < acts.len() ==> sound_action(#[trigger] acts[i]),
    ensures
        fine(http_view(name, notes, acts)),
{
    lemma_word_literals();
    lemma_value_literals();
    lemma_fine_view(name, notes, "80"@, seq!["http"@], "http_req"@, acts);
}

proof fn lemma_fooling_args()
    ensures
        forall|i: int, j: int|
            0 <= i < foolings().len() && 0 <= j < foolings()[i].1.len() ==> arg_ok(
                #[trigger] foolings()[i].1[j],
            ),
{
    lemma_key_literals();
    lemma_value_literals();
}

/// A function a family is built on: a token this build knows, starting with a letter or digit so
/// that the names built from it are usable.
spec fn good_function(f: Seq<char>) -> bool {
    is_token(f) && is_known_function(f) && f.len() > 0 && is_ascii_alnum(f[0])
}

proof fn lemma_split_families_fine(f: Seq<char>)
    requires
        good_function(f),
    ensures
        all_fine(split_family(f)),
        all_fine(decoy_family(f)),
        all_fine(wssize_family(f)),
        all_fine(http_split_family(f)),
{
    lemma_key_literals();
    lemma_value_literals();
    lemma_word_literals();
    assert forall|k: int| 0 <= k < split_family(f).len() implies fine(
        #[trigger] split_family(f)[k],
    ) by {
        let pos = tls_positions()[k];
        lemma_split_sound(f, pos);
        lemma_name_of(seq![f, pos]);
        let acts = seq![split_spec(f, pos)];
        assert(sound_action(acts[0]));
        lemma_tls_fine(name_of(seq![f, pos]), "Split the TLS hello at "@ + describe_spec(pos), acts);
    }
    let rows = foolings().map_values(|g: (Seq<char>, Seq<(Seq<char>, Seq<char>)>)| decoy_row(f, g));
    lemma_fooling_args();
    assert forall|i: int| 0 <= i < rows.len() implies all_fine(#[trigger] rows[i]) by {
        let g = foolings()[i];
        assert forall|j: int| 0 <= j < g.1.len() implies arg_ok(#[trigger] g.1[j]) by {
            assert(foolings()[i].1[j] == g.1[j]);
        }
        assert forall|k: int| 0 <= k < rows[i].len() implies fine(#[trigger] rows[i][k]) by {
            let pos = tls_key_positions()[k];
            lemma_split_sound(f, pos);
            lemma_with_args_sound(split_spec(f, pos), g.1);
            lemma_name_of(seq![f, g.0, pos]);
            let acts = seq![with_args_spec(split_spec(f, pos), g.1)];
            assert(sound_action(acts[0]));
            lemma_tls_fine(
                name_of(seq![f, g.0, pos]),
                "Split at "@ + describe_spec(pos) + " with a decoy the server discards"@,
                acts,
            );
        }
    }
    lemma_fine_concat_all(rows);
    let window = with_arg(with_arg(bare("wssize"@), "wsize"@, "1"@), "scale"@, "6"@);
    lemma_with_arg_sound(bare("wssize"@), "wsize"@, "1"@);
    lemma_with_arg_sound(with_arg(bare("wssize"@), "wsize"@, "1"@), "scale"@, "6"@);
    assert forall|k: int| 0 <= k < wssize_family(f).len() implies fine(
        #[trigger] wssize_family(f)[k],
    ) by {
        let pos = tls_key_positions()[k];
        lemma_split_sound(f, pos);
        lemma_name_of(seq!["wssize"@, f, pos]);
        let acts = seq![window, split_spec(f, pos)];
        assert(sound_action(acts[0]) && sound_action(acts[1]));
        lemma_tls_fine(
            name_of(seq!["wssize"@, f, pos]),
            "Shrink the window so the hello arrives in pieces, split at "@ + describe_spec(pos),
            acts,
        );
    }
    assert forall|k: int| 0 <= k < http_split_family(f).len() implies fine(
        #[trigger] http_split_family(f)[k],
    ) by {
        let pos = http_positions()[k];
        lemma_split_sound(f, pos);
        lemma_name_of(seq!["http"@, f, pos]);
        let acts = seq![split_spec(f, pos)];
        assert(sound_action(acts[0]));
        lemma_http_fine(name_of(seq!["http"@, f, pos]), "Split the request at "@ + describe_spec(pos), acts);
    }
}

proof fn lemma_decoy_families_fine()
    ensures
        all_fine(seqovl_family()),
        all_fine(fake_family()),
        all_fine(autottl_family()),
        all_fine(ttl_family()),
{
    lemma_key_literals();
    lemma_value_literals();
    lemma_word_literals();
    lemma_fooling_args();
    assert forall|k: int| 0 <= k < seqovl_family().len() implies fine(#[trigger] seqovl_family()[k]) by {
        let pos = tls_key_positions()[k];
        lemma_split_sound("multisplit"@, pos);
        lemma_with_arg_sound(split_spec("multisplit"@, pos), "seqovl"@, "1"@);
        lemma_name_of(seq!["multisplit"@, "seqovl"@, pos]);
        let acts = seq![with_arg(split_spec("multisplit"@, pos), "seqovl"@, "1"@)];
        assert(sound_action(acts[0]));
        lemma_tls_fine(
            name_of(seq!["multisplit"@, "seqovl"@, pos]),
            "Split at "@ + describe_spec(pos) + ", overlapping the segment before it"@,
            acts,
        );
    }
    lemma_with_arg_sound(bare("fake"@), "blob"@, "fake_default_tls"@);
    assert(sound_action(fake_blob()));
    lemma_split_sound("multidisorder"@, "1,midsld"@);
    assert(sound_action(split_after_decoy()));
    assert forall|k: int| 0 <= k < fake_family().len() implies fine(#[trigger] fake_family()[k]) by {
        let g = foolings()[k];
        assert forall|j: int| 0 <= j < g.1.len() implies arg_ok(#[trigger] g.1[j]) by {
            assert(foolings()[k].1[j] == g.1[j]);
        }
        lemma_with_args_sound(fake_blob(), g.1);
        lemma_name_of(seq!["fake"@, g.0]);
        let acts = seq![with_args_spec(fake_blob(), g.1), split_after_decoy()];
        assert(sound_action(acts[0]) && sound_action(acts[1]));
        lemma_tls_fine(
            name_of(seq!["fake"@, g.0]),
            "Send a whole decoy hello the server discards, then split the real one"@,
            acts,
        );
    }
    assert forall|k: int| 0 <= k < autottl_family().len() implies fine(
        #[trigger] autottl_family()[k],
    ) by {
        let d = decimal((k + 1) as nat);
        lemma_decimal_plain((k + 1) as nat);
        lemma_plain_concat("-"@, d);
        lemma_plain_concat("-"@ + d, ",3-20"@);
        lemma_with_arg_sound(fake_blob(), "ip4_autottl"@, "-"@ + d + ",3-20"@);
        let a1 = with_arg(fake_blob(), "ip4_autottl"@, "-"@ + d + ",3-20"@);
        lemma_with_arg_sound(a1, "repeats"@, "2"@);
        lemma_name_of(seq!["fake"@, "autottl"@, d]);
        let acts = seq![with_arg(a1, "repeats"@, "2"@), split_after_decoy()];
        assert(sound_action(acts[0]) && sound_action(acts[1]));
        lemma_tls_fine(
            name_of(seq!["fake"@, "autottl"@, d]),
            "Send a decoy that expires before the server sees it, then split the real hello"@,
            acts,
        );
    }
    assert forall|k: int| 0 <= k < ttl_family().len() implies fine(#[trigger] ttl_family()[k]) by {
        let t = decimal((k + 1) as nat);
        lemma_decimal_plain((k + 1) as nat);
        lemma_with_arg_sound(fake_blob(), "ip4_ttl"@, t);
        let a1 = with_arg(fake_blob(), "ip4_ttl"@, t);
        lemma_with_arg_sound(a1, "repeats"@, "2"@);
        lemma_name_of(seq!["fake"@, "ttl"@, t]);
        let acts = seq![with_arg(a1, "repeats"@, "2"@), split_after_decoy()];
        assert(sound_action(acts[0]) && sound_action(acts[1]));
        lemma_tls_fine(
            name_of(seq!["fake"@, "ttl"@, t]),
            "Send a decoy that expires "@ + t + " hops away, then split the real hello"@,
            acts,
        );
    }
}

proof fn lemma_extras_fine()
    ensures
        all_fine(extras()),
        all_fine(seq![hostcase()]),
{
    lemma_key_literals();
    lemma_value_literals();
    lemma_word_literals();
    lemma_name_literals();
    let syn_tls = with_arg(bare("syndata"@), "blob"@, "fake_default_tls"@);
    let syn_http = with_arg(bare("syndata"@), "blob"@, "fake_default_http"@);
    lemma_with_arg_sound(bare("syndata"@), "blob"@, "fake_default_tls"@);
    lemma_with_arg_sound(bare("syndata"@), "blob"@, "fake_default_http"@);
    let split = split_spec("multisplit"@, "1,midsld"@);
    lemma_split_sound("multisplit"@, "1,midsld"@);
    let seg1 = with_arg(bare("tcpseg"@), "pos"@, "0,-1"@);
    lemma_with_arg_sound(bare("tcpseg"@), "pos"@, "0,-1"@);
    lemma_with_arg_sound(seg1, "seqovl"@, "1"@);
    let seg2 = with_arg(bare("tcpseg"@), "pos"@, "0,midsld"@);
    lemma_with_arg_sound(bare("tcpseg"@), "pos"@, "0,midsld"@);
    lemma_with_arg_sound(seg2, "ip_id"@, "rnd"@);
    assert(sound_action(bare("oob"@)));
    lemma_with_arg_sound(bare("oob"@), "urp"@, "1"@);
    let a1 = seq![syn_tls, split];
    assert(sound_action(a1[0]) && sound_action(a1[1]));
    lemma_tls_fine("syndata"@, "Put a decoy hello in the SYN packet, before the real one"@, a1);
    let a2 = seq![syn_http, split];
    assert(sound_action(a2[0]) && sound_action(a2[1]));
    lemma_tls_fine(
        "syndata-http"@,
        "Put a decoy HTTP request in the SYN packet, before the real hello"@,
        a2,
    );
    let a3 = seq![with_arg(seg1, "seqovl"@, "1"@)];
    assert(sound_action(a3[0]));
    lemma_tls_fine(
        "tcpseg-seqovl"@,
        "Re-segment the hello with the first piece overlapping the one before it"@,
        a3,
    );
    let a4 = seq![with_arg(seg2, "ip_id"@, "rnd"@)];
    assert(sound_action(a4[0]));
    lemma_tls_fine("tcpseg-midsld"@, "Re-segment the hello at the domain name"@, a4);
    let a5 = seq![bare("oob"@)];
    assert(sound_action(a5[0]));
    lemma_tls_fine(
        "oob"@,
        "Send an out-of-band byte the inspector reads and the server ignores"@,
        a5,
    );
    let a6 = seq![with_arg(bare("oob"@), "urp"@, "1"@)];
    assert(sound_action(a6[0]));
    lemma_tls_fine("oob-urp"@, "The same out-of-band byte, with the urgent pointer moved"@, a6);
    let e = extras();
    assert forall|k: int| 0 <= k < e.len() implies fine(#[trigger] e[k]) by {}
    lemma_split_sound("multisplit"@, "method+2,midsld"@);
    assert(sound_action(bare("http_hostcase"@)));
    let h = seq![bare("http_hostcase"@), split_spec("multisplit"@, "method+2,midsld"@)];
    assert(sound_action(h[0]) && sound_action(h[1]));
    lemma_http_fine(
        "http-hostcase"@,
        "Change the case of the Host header, which some inspectors match literally"@,
        h,
    );
    assert forall|k: int| 0 <= k < 1 implies fine(#[trigger] seq![hostcase()][k]) by {}
}

proof fn lemma_families_fine()
    ensures
        all_fine(candidate_views()),
{
    lemma_word_literals();
    lemma_split_families_fine("multisplit"@);
    lemma_split_families_fine("multidisorder"@);
    lemma_split_families_fine("fakedsplit"@);
    lemma_split_families_fine("fakeddisorder"@);
    lemma_decoy_families_fine();
    lemma_extras_fine();
    let a1 = split_family("multisplit"@) + split_family("multidisorder"@);
    lemma_fine_concat(split_family("multisplit"@), split_family("multidisorder"@));
    let a2 = a1 + seqovl_family();
    lemma_fine_concat(a1, seqovl_family());
    let a3 = a2 + decoy_family("fakedsplit"@);
    lemma_fine_concat(a2, decoy_family("fakedsplit"@));
    let a4 = a3 + decoy_family("fakeddisorder"@);
    lemma_fine_concat(a3, decoy_family("fakeddisorder"@));
    let a5 = a4 + fake_family();
    lemma_fine_concat(a4, fake_family());
    let a6 = a5 + autottl_family();
    lemma_fine_concat(a5, autottl_family());
    let a7 = a6 + ttl_family();
    lemma_fine_concat(a6, ttl_family());
    let a8 = a7 + wssize_family("multisplit"@);
    lemma_fine_concat(a7, wssize_family("multisplit"@));
    let a9 = a8 + wssize_family("multidisorder"@);
    lemma_fine_concat(a8, wssize_family("multidisorder"@));
    let a10 = a9 + extras();
    lemma_fine_concat(a9, extras());
    let a11 = a10 + http_split_family("multisplit"@);
    lemma_fine_concat(a10, http_split_family("multisplit"@));
    let a12 = a11 + http_split_family("multidisorder"@);
    lemma_fine_concat(a11, http_split_family("multidisorder"@));
    lemma_fine_concat(a12, seq![hostcase()]);
}

/// Every candidate passes validation, matches this build's engine interface, lints clean, and
/// names only functions this build knows: the walk never hands the engine a config it would
/// refuse for a reason of the library's own making.
pub proof fn every_candidate_is_valid_and_names_known_functions()
    ensures
        forall|k: int| 0 <= k < candidate_views().len() ==> candidate_ok(#[trigger] candidate_views()[k]),
{
    lemma_families_fine();
    assert forall|k: int| 0 <= k < candidate_views().len() implies candidate_ok(
        #[trigger] candidate_views()[k],
    ) by {
        assert(fine(candidate_views()[k]));
    }
}

// ---------------------------------------------------------------------------------------------
// Every candidate renders one profile
// ---------------------------------------------------------------------------------------------

/// The lines of one profile that does something: exactly one line names it (`--name=`), none
/// opens another (`--new=`), one claims TCP ports (`--filter-tcp=`) and one runs a Lua action
/// (`--lua-desync=`).
pub open spec fn renders_one_profile(ls: Seq<Seq<char>>) -> bool {
    &&& exists|i: int| 0 <= i < ls.len() && is_prefix("--name="@, #[trigger] ls[i])
    &&& forall|i: int, j: int|
        0 <= i < ls.len() && 0 <= j < ls.len() && is_prefix("--name="@, #[trigger] ls[i])
            && is_prefix("--name="@, #[trigger] ls[j]) ==> i == j
    &&& forall|i: int| 0 <= i < ls.len() ==> !is_prefix("--new="@, #[trigger] ls[i])
    &&& exists|i: int| 0 <= i < ls.len() && is_prefix("--filter-tcp="@, #[trigger] ls[i])
    &&& exists|i: int| 0 <= i < ls.len() && is_prefix("--lua-desync="@, #[trigger] ls[i])
}

/// A line that neither names nor opens a profile: empty, or an option whose third character is
/// not the `n` of `--name` and `--new`.
spec fn other_line(l: Seq<char>) -> bool {
    l.len() == 0 || (l.len() >= 3 && l[2] != 'n')
}

spec fn all_other(ls: Seq<Seq<char>>) -> bool {
    forall|i: int| 0 <= i < ls.len() ==> other_line(#[trigger] ls[i])
}

proof fn lemma_other_concat(a: Seq<Seq<char>>, b: Seq<Seq<char>>)
    requires
        all_other(a),
        all_other(b),
    ensures
        all_other(a + b),
{
    assert forall|i: int| 0 <= i < (a + b).len() implies other_line(#[trigger] (a + b)[i]) by {
        if i < a.len() {
            assert((a + b)[i] == a[i]);
        } else {
            assert((a + b)[i] == b[i - a.len()]);
        }
    }
}

proof fn lemma_other_flagged(flag: Seq<char>, value: Seq<char>)
    requires
        flag.len() >= 3,
        flag[2] != 'n',
    ensures
        other_line(flag + value),
{
    assert((flag + value)[2] == flag[2]);
}

proof fn lemma_prefix_char(p: Seq<char>, s: Seq<char>, k: int)
    requires
        is_prefix(p, s),
        0 <= k < p.len(),
    ensures
        s[k] == p[k],
{
    assert(s.take(p.len() as int)[k] == s[k]);
}

proof fn lemma_other_opt(flag: Seq<char>, value: Option<Seq<char>>)
    requires
        flag.len() >= 3,
        flag[2] != 'n',
    ensures
        all_other(opt_line(flag, value)),
{
    if let Some(v) = value {
        lemma_other_flagged(flag, "="@ + v);
        assert(flag + "="@ + v =~= flag + ("="@ + v));
    }
}

proof fn lemma_header_other(e: EngineOptionsView)
    ensures
        all_other(header_lines(e)),
{
    reveal_strlit("--intercept=0");
    reveal_strlit("--qnum=");
    reveal_strlit("--pidfile=");
    reveal_strlit("--debug=@");
    reveal_strlit("--lua-init=@");
    let a: Seq<Seq<char>> = if e.validate {
        seq!["--intercept=0"@]
    } else {
        Seq::empty()
    };
    let b: Seq<Seq<char>> = if e.platform == Platform::Linux {
        lemma_other_flagged("--qnum="@, decimal(e.queue_num as nat));
        seq!["--qnum="@ + decimal(e.queue_num as nat)]
    } else {
        Seq::empty()
    };
    let c: Seq<Seq<char>> = if e.pidfile.len() > 0 {
        lemma_other_flagged("--pidfile="@, e.pidfile);
        seq!["--pidfile="@ + e.pidfile]
    } else {
        Seq::empty()
    };
    let d: Seq<Seq<char>> = match e.debug_log {
        Some(log) => {
            lemma_other_flagged("--debug=@"@, log);
            seq!["--debug=@"@ + log]
        },
        None => Seq::empty(),
    };
    let l = lua_init_lines(e.lua_init);
    assert forall|i: int| 0 <= i < l.len() implies other_line(#[trigger] l[i]) by {
        lemma_other_flagged("--lua-init=@"@, e.lua_init[i]);
    }
    lemma_other_concat(a, b);
    lemma_other_concat(a + b, c);
    lemma_other_concat(a + b + c, d);
    lemma_other_concat(a + b + c + d, l);
}

proof fn lemma_filter_other(f: FilterView)
    ensures
        all_other(filter_lines(f)),
{
    reveal_strlit("--filter-l3");
    reveal_strlit("--filter-tcp");
    reveal_strlit("--filter-udp");
    reveal_strlit("--filter-l7=");
    reveal_strlit("--hostlist");
    reveal_strlit("--hostlist-exclude");
    reveal_strlit("--hostlist-auto");
    reveal_strlit("--ipset");
    reveal_strlit("--ipset-exclude");
    let p0 = opt_line("--filter-l3"@, f.l3);
    let p1 = opt_line("--filter-tcp"@, f.tcp);
    let p2 = opt_line("--filter-udp"@, f.udp);
    let p3 = l7_line(f.l7);
    let p4 = opt_line("--hostlist"@, f.hostlist);
    let p5 = opt_line("--hostlist-exclude"@, f.hostlist_exclude);
    let p6 = opt_line("--hostlist-auto"@, f.hostlist_auto);
    let p7 = opt_line("--ipset"@, f.ipset);
    let p8 = opt_line("--ipset-exclude"@, f.ipset_exclude);
    lemma_other_opt("--filter-l3"@, f.l3);
    lemma_other_opt("--filter-tcp"@, f.tcp);
    lemma_other_opt("--filter-udp"@, f.udp);
    if f.l7.len() > 0 {
        lemma_other_flagged("--filter-l7="@, seq_join(f.l7, ","@));
    }
    lemma_other_opt("--hostlist"@, f.hostlist);
    lemma_other_opt("--hostlist-exclude"@, f.hostlist_exclude);
    lemma_other_opt("--hostlist-auto"@, f.hostlist_auto);
    lemma_other_opt("--ipset"@, f.ipset);
    lemma_other_opt("--ipset-exclude"@, f.ipset_exclude);
    lemma_other_concat(p0, p1);
    lemma_other_concat(p0 + p1, p2);
    lemma_other_concat(p0 + p1 + p2, p3);
    lemma_other_concat(p0 + p1 + p2 + p3, p4);
    lemma_other_concat(p0 + p1 + p2 + p3 + p4, p5);
    lemma_other_concat(p0 + p1 + p2 + p3 + p4 + p5, p6);
    lemma_other_concat(p0 + p1 + p2 + p3 + p4 + p5 + p6, p7);
    lemma_other_concat(p0 + p1 + p2 + p3 + p4 + p5 + p6 + p7, p8);
}

proof fn lemma_actions_other(acts: Seq<ActionView>)
    ensures
        all_other(actions_lines(acts)),
        acts.len() > 0 ==> actions_lines(acts).len() > 0 && actions_lines(acts).last() == desync_line(
            acts.last(),
        ),
    decreases acts.len(),
{
    if acts.len() > 0 {
        reveal_strlit("--payload=");
        reveal_strlit("--lua-desync=");
        lemma_actions_other(acts.drop_last());
        let a = acts.last();
        let first: Seq<Seq<char>> = if a.payload.len() > 0 {
            lemma_other_flagged("--payload="@, seq_join(a.payload, ","@));
            seq!["--payload="@ + seq_join(a.payload, ","@)]
        } else {
            Seq::empty()
        };
        lemma_other_flagged("--lua-desync="@, a.function + args_text(a.args));
        assert(desync_line(a) =~= "--lua-desync="@ + (a.function + args_text(a.args)));
        lemma_other_concat(first, seq![desync_line(a)]);
        lemma_other_concat(actions_lines(acts.drop_last()), action_text_lines(a));
    }
}

/// A config of one enabled strategy that claims TCP ports and runs at least one action renders
/// one profile, whatever the engine options.
proof fn lemma_single_profile_renders(c: ConfigView, e: EngineOptionsView)
    requires
        single_profile(c),
    ensures
        renders_one_profile(render_lines(c, e)),
{
    reveal_strlit("--name=");
    reveal_strlit("--name");
    reveal_strlit("=");
    reveal_strlit("--new=");
    reveal_strlit("--filter-tcp=");
    reveal_strlit("--filter-tcp");
    reveal_strlit("--lua-desync=");
    let s = c.strategies[0];
    assert(c.strategies.drop_last() =~= Seq::<StrategyView>::empty());
    assert(c.strategies.last() == s);
    let h = header_lines(e);
    let name_line = "--name"@ + "="@ + s.name;
    let f = filter_lines(s.filter);
    let a = actions_lines(s.actions);
    let p = seq![Seq::<char>::empty(), name_line] + f + a;
    assert(profiles(c.strategies) == profiles(Seq::<StrategyView>::empty()) + p);
    assert(profiles(c.strategies) =~= p);
    let l = render_lines(c, e);
    assert(l == h + p);
    lemma_header_other(e);
    lemma_filter_other(s.filter);
    lemma_actions_other(s.actions);
    let n = h.len() as int;
    // the name line
    assert(l[n + 1] == name_line);
    assert(name_line.take(7) =~= "--name="@);
    assert(is_prefix("--name="@, l[n + 1]));
    assert(name_line[3] == 'a');
    // every other line is neither a name nor a new profile
    assert forall|i: int| 0 <= i < l.len() && i != n + 1 implies other_line(#[trigger] l[i]) by {
        if i < n {
            assert(l[i] == h[i]);
        } else if i == n {
            assert(l[i] == Seq::<char>::empty());
        } else if i < n + 2 + f.len() {
            assert(l[i] == f[i - n - 2]);
        } else {
            assert(l[i] == a[i - n - 2 - f.len()]);
        }
    }
    assert forall|i: int| 0 <= i < l.len() && is_prefix("--name="@, #[trigger] l[i]) implies i == n
        + 1 by {
        if i != n + 1 {
            assert(other_line(l[i]));
            lemma_prefix_char("--name="@, l[i], 2);
        }
    }
    assert forall|i: int| 0 <= i < l.len() implies !is_prefix("--new="@, #[trigger] l[i]) by {
        if is_prefix("--new="@, l[i]) {
            lemma_prefix_char("--new="@, l[i], 2);
            if i == n + 1 {
                lemma_prefix_char("--new="@, l[i], 3);
            } else {
                assert(other_line(l[i]));
            }
        }
    }
    // the port filter
    let port = s.filter.tcp->0;
    let k = n + 2 + opt_line("--filter-l3"@, s.filter.l3).len();
    assert(f[opt_line("--filter-l3"@, s.filter.l3).len() as int] == "--filter-tcp"@ + "="@ + port);
    assert(l[k] == "--filter-tcp"@ + "="@ + port);
    assert(("--filter-tcp"@ + "="@ + port).take(13) =~= "--filter-tcp="@);
    assert(is_prefix("--filter-tcp="@, l[k]));
    // the last action's call closes the file
    let last = l.len() - 1;
    assert(l[last] == a.last());
    assert(desync_line(s.actions.last()).take(13) =~= "--lua-desync="@);
    assert(is_prefix("--lua-desync="@, l[last]));
}

/// Each candidate renders as exactly one profile that claims TCP ports and runs at least one Lua
/// action, whatever the engine options: no candidate opens a second profile, and none is inert.
pub proof fn every_candidate_renders_one_profile(e: EngineOptionsView)
    ensures
        forall|k: int|
            0 <= k < candidate_views().len() ==> renders_one_profile(
                render_lines(#[trigger] candidate_views()[k], e),
            ),
{
    lemma_families_fine();
    assert forall|k: int| 0 <= k < candidate_views().len() implies renders_one_profile(
        render_lines(#[trigger] candidate_views()[k], e),
    ) by {
        assert(fine(candidate_views()[k]));
        lemma_single_profile_renders(candidate_views()[k], e);
    }
}

} // verus!
