//! Platform-agnostic configuration model.
//!
//! A [`Config`] is what the user names, saves, switches between and syncs. It mirrors zapret2's own
//! vocabulary: a [`Strategy`] is one nfqws2 *profile*, and its [`Action`]s are the ordered
//! `--lua-desync` calls inside it. It is not a command line — [`crate::render`] turns it into one,
//! and [`crate::registry`] reports what this build does not recognise.

use crate::args::Args;
use crate::text::{
    all_ws, decimal, has_char, is_ascii_alnum, is_ws, is_ws_char, lemma_trim_empty_iff, push_decimal,
    push_str, trim,
};
use vstd::prelude::*;
use vstd::string::*;

verus! {

/// Bumped whenever a config file needs migration. Files carrying a higher number are rejected
/// rather than silently misread.
pub const SCHEMA_VERSION: u32 = 1;

/// The `NFQWS2_COMPAT_VER` this build renders for. Upstream bumps it on every API break, so a
/// config records which one its actions were written against.
pub const NFQWS2_COMPAT_VER: u32 = 3;

#[derive(Debug, Clone, PartialEq, Eq)]
pub struct Config {
    pub schema: u32,
    /// User-facing name; also the file stem under the configs directory.
    pub name: String,
    pub notes: Option<String>,
    pub compat: u32,
    pub strategies: Vec<Strategy>,
}

/// One nfqws2 profile: which traffic it claims, and what it does to it.
#[derive(Debug, Clone, PartialEq, Eq)]
pub struct Strategy {
    pub name: String,
    pub enabled: bool,
    pub filter: Filter,
    /// Ordered. nfqws2 runs them in sequence, and orchestrators like `circular` depend on that
    /// order, so this is a list rather than a map.
    pub actions: Vec<Action>,
}

/// Profile-level filters — the `--filter-*`, `--hostlist*` and `--ipset*` options.
#[derive(Debug, Clone, PartialEq, Eq)]
pub struct Filter {
    /// `ipv4` or `ipv6`; unset means both.
    pub l3: Option<String>,
    /// TCP ports: `443`, `80,443`, `1-1023`, `~22`, `*`.
    pub tcp: Option<String>,
    pub udp: Option<String>,
    /// Application protocols, e.g. `http`, `tls`, `quic`.
    pub l7: Vec<String>,
    pub hostlist: Option<String>,
    pub hostlist_exclude: Option<String>,
    /// Self-populating hostlist driven by nfqws2's own failure detector.
    pub hostlist_auto: Option<String>,
    pub ipset: Option<String>,
    pub ipset_exclude: Option<String>,
}

/// One `--lua-desync` call: a function from zapret2's Lua libraries plus its arguments.
#[derive(Debug, Clone, PartialEq, Eq)]
pub struct Action {
    /// Lua function name — `fake`, `multisplit`, `multidisorder`, `wsize`, `circular`, …
    pub function: String,
    /// `--payload=` filter applied to this action. Empty means whatever the profile already set.
    pub payload: Vec<String>,
    /// Arguments, rendered as `:key=value`. An empty value is a bare flag.
    pub args: Args,
}

#[derive(Debug, PartialEq, Eq)]
pub enum ConfigError {
    UnsupportedSchema { found: u32, supported: u32 },
    BadName,
    BadToken { field: &'static str, value: String },
    UnsafeValue { field: &'static str, value: String },
    CompatMismatch { found: u32, supported: u32 },
}

// ---------------------------------------------------------------------------------------------
// Views
// ---------------------------------------------------------------------------------------------

pub struct ConfigView {
    pub schema: u32,
    pub name: Seq<char>,
    pub notes: Option<Seq<char>>,
    pub compat: u32,
    pub strategies: Seq<StrategyView>,
}

pub struct StrategyView {
    pub name: Seq<char>,
    pub enabled: bool,
    pub filter: FilterView,
    pub actions: Seq<ActionView>,
}

pub struct FilterView {
    pub l3: Option<Seq<char>>,
    pub tcp: Option<Seq<char>>,
    pub udp: Option<Seq<char>>,
    pub l7: Seq<Seq<char>>,
    pub hostlist: Option<Seq<char>>,
    pub hostlist_exclude: Option<Seq<char>>,
    pub hostlist_auto: Option<Seq<char>>,
    pub ipset: Option<Seq<char>>,
    pub ipset_exclude: Option<Seq<char>>,
}

pub struct ActionView {
    pub function: Seq<char>,
    pub payload: Seq<Seq<char>>,
    pub args: Seq<(Seq<char>, Seq<char>)>,
}

pub enum ConfigErrorView {
    UnsupportedSchema { found: u32, supported: u32 },
    BadName,
    BadToken { field: Seq<char>, value: Seq<char> },
    UnsafeValue { field: Seq<char>, value: Seq<char> },
    CompatMismatch { found: u32, supported: u32 },
}

pub open spec fn opt_view(o: Option<String>) -> Option<Seq<char>> {
    match o {
        Some(s) => Some(s@),
        None => None,
    }
}

pub open spec fn string_views(v: Seq<String>) -> Seq<Seq<char>> {
    v.map_values(|s: String| s@)
}

impl View for Filter {
    type V = FilterView;

    open spec fn view(&self) -> FilterView {
        FilterView {
            l3: opt_view(self.l3),
            tcp: opt_view(self.tcp),
            udp: opt_view(self.udp),
            l7: string_views(self.l7@),
            hostlist: opt_view(self.hostlist),
            hostlist_exclude: opt_view(self.hostlist_exclude),
            hostlist_auto: opt_view(self.hostlist_auto),
            ipset: opt_view(self.ipset),
            ipset_exclude: opt_view(self.ipset_exclude),
        }
    }
}

impl View for Action {
    type V = ActionView;

    open spec fn view(&self) -> ActionView {
        ActionView { function: self.function@, payload: string_views(self.payload@), args: self.args@ }
    }
}

impl View for Strategy {
    type V = StrategyView;

    open spec fn view(&self) -> StrategyView {
        StrategyView {
            name: self.name@,
            enabled: self.enabled,
            filter: self.filter@,
            actions: self.actions@.map_values(|a: Action| a@),
        }
    }
}

impl View for Config {
    type V = ConfigView;

    open spec fn view(&self) -> ConfigView {
        ConfigView {
            schema: self.schema,
            name: self.name@,
            notes: opt_view(self.notes),
            compat: self.compat,
            strategies: self.strategies@.map_values(|s: Strategy| s@),
        }
    }
}

impl View for ConfigError {
    type V = ConfigErrorView;

    open spec fn view(&self) -> ConfigErrorView {
        match self {
            ConfigError::UnsupportedSchema { found, supported } => ConfigErrorView::UnsupportedSchema {
                found: *found,
                supported: *supported,
            },
            ConfigError::BadName => ConfigErrorView::BadName,
            ConfigError::BadToken { field, value } => ConfigErrorView::BadToken {
                field: field@,
                value: value@,
            },
            ConfigError::UnsafeValue { field, value } => ConfigErrorView::UnsafeValue {
                field: field@,
                value: value@,
            },
            ConfigError::CompatMismatch { found, supported } => ConfigErrorView::CompatMismatch {
                found: *found,
                supported: *supported,
            },
        }
    }
}

/// The error of a check, `None` when it passed.
pub open spec fn err_of(r: Result<(), ConfigError>) -> Option<ConfigErrorView> {
    match r {
        Ok(_) => None,
        Err(e) => Some(e@),
    }
}

// ---------------------------------------------------------------------------------------------
// What validation means
// ---------------------------------------------------------------------------------------------

/// The first error in a sequence of checks run in order.
pub open spec fn first_error(s: Seq<Option<ConfigErrorView>>) -> Option<ConfigErrorView>
    decreases s.len(),
{
    if s.len() == 0 {
        None
    } else {
        let before = first_error(s.drop_last());
        if before is Some {
            before
        } else {
            s.last()
        }
    }
}

pub open spec fn or_else(a: Option<ConfigErrorView>, b: Option<ConfigErrorView>) -> Option<
    ConfigErrorView,
> {
    if a is Some {
        a
    } else {
        b
    }
}

/// A bare identifier: what can appear as an option or function name without quoting.
pub open spec fn is_token_char(c: char) -> bool {
    is_ascii_alnum(c) || c == '_' || c == '-' || c == '.'
}

pub open spec fn is_token(s: Seq<char>) -> bool {
    s.len() > 0 && forall|i: int| 0 <= i < s.len() ==> is_token_char(#[trigger] s[i])
}

/// No newline, carriage return or NUL: nothing that could end a line of the parameter file.
pub open spec fn is_safe_value(s: Seq<char>) -> bool {
    !s.contains('\n') && !s.contains('\r') && !s.contains('\0')
}

pub open spec fn token_error(field: Seq<char>, value: Seq<char>) -> Option<ConfigErrorView> {
    if is_token(value) {
        None
    } else {
        Some(ConfigErrorView::BadToken { field, value })
    }
}

pub open spec fn value_error(field: Seq<char>, value: Seq<char>) -> Option<ConfigErrorView> {
    if is_safe_value(value) {
        None
    } else {
        Some(ConfigErrorView::UnsafeValue { field, value })
    }
}

pub open spec fn opt_value_error(field: Seq<char>, value: Option<Seq<char>>) -> Option<
    ConfigErrorView,
> {
    match value {
        Some(v) => value_error(field, v),
        None => None,
    }
}

pub open spec fn filter_error(f: FilterView) -> Option<ConfigErrorView> {
    or_else(
        first_error(
            seq![
                opt_value_error("filter.l3"@, f.l3),
                opt_value_error("filter.tcp"@, f.tcp),
                opt_value_error("filter.udp"@, f.udp),
                opt_value_error("filter.hostlist"@, f.hostlist),
                opt_value_error("filter.hostlist_exclude"@, f.hostlist_exclude),
                opt_value_error("filter.hostlist_auto"@, f.hostlist_auto),
                opt_value_error("filter.ipset"@, f.ipset),
                opt_value_error("filter.ipset_exclude"@, f.ipset_exclude),
            ],
        ),
        first_error(f.l7.map_values(|p: Seq<char>| token_error("filter.l7"@, p))),
    )
}

/// `:` separates arguments inside `--lua-desync`, so a value holding one is refused before the
/// newline check.
pub open spec fn arg_error(key: Seq<char>, value: Seq<char>) -> Option<ConfigErrorView> {
    or_else(
        token_error("action argument"@, key),
        if value.contains(':') {
            Some(ConfigErrorView::UnsafeValue { field: "action argument value"@, value })
        } else {
            value_error("action argument value"@, value)
        },
    )
}

pub open spec fn action_error(a: ActionView) -> Option<ConfigErrorView> {
    or_else(
        token_error("action function"@, a.function),
        or_else(
            first_error(a.payload.map_values(|p: Seq<char>| token_error("action payload"@, p))),
            first_error(a.args.map_values(|e: (Seq<char>, Seq<char>)| arg_error(e.0, e.1))),
        ),
    )
}

pub open spec fn strategy_error(s: StrategyView) -> Option<ConfigErrorView> {
    or_else(
        token_error("strategy name"@, s.name),
        or_else(
            filter_error(s.filter),
            first_error(s.actions.map_values(|a: ActionView| action_error(a))),
        ),
    )
}

/// A name that could traverse or reset a path: blank, holding a separator or NUL, or hidden.
pub open spec fn is_bad_name(n: Seq<char>) -> bool {
    ||| all_ws(n)
    ||| n.contains('/')
    ||| n.contains('\\')
    ||| n.contains('\0')
    ||| (n.len() > 0 && n[0] == '.')
}

/// The error [`Config::validate`] reports: the schema first, then the name, then the strategies
/// in order, each checked field by field.
pub open spec fn config_error(c: ConfigView) -> Option<ConfigErrorView> {
    if c.schema > SCHEMA_VERSION {
        Some(ConfigErrorView::UnsupportedSchema { found: c.schema, supported: SCHEMA_VERSION })
    } else if is_bad_name(c.name) {
        Some(ConfigErrorView::BadName)
    } else {
        first_error(c.strategies.map_values(|s: StrategyView| strategy_error(s)))
    }
}

pub open spec fn compat_error(c: ConfigView) -> Option<ConfigErrorView> {
    if c.compat == NFQWS2_COMPAT_VER {
        None
    } else {
        Some(ConfigErrorView::CompatMismatch { found: c.compat, supported: NFQWS2_COMPAT_VER })
    }
}

pub proof fn lemma_first_error_step(s: Seq<Option<ConfigErrorView>>, i: int)
    requires
        0 <= i < s.len(),
        first_error(s.take(i)) is None,
    ensures
        s[i] is None ==> first_error(s.take(i + 1)) is None,
        s[i] is Some ==> first_error(s) == s[i],
{
    assert(s.take(i + 1).drop_last() =~= s.take(i));
    if s[i] is Some {
        lemma_first_error_extends(s, i + 1);
    }
}

/// Once a prefix has an error, later checks do not change which one is reported.
pub proof fn lemma_first_error_extends(s: Seq<Option<ConfigErrorView>>, k: int)
    requires
        0 <= k <= s.len(),
        first_error(s.take(k)) is Some,
    ensures
        first_error(s) == first_error(s.take(k)),
    decreases s.len() - k,
{
    if k == s.len() {
        assert(s.take(k) =~= s);
    } else {
        assert(s.take(k + 1).drop_last() =~= s.take(k));
        lemma_first_error_extends(s, k + 1);
    }
}

pub proof fn lemma_first_error_all(s: Seq<Option<ConfigErrorView>>)
    requires
        first_error(s.take(s.len() as int)) is None,
    ensures
        first_error(s) is None,
{
    assert(s.take(s.len() as int) =~= s);
}

pub proof fn lemma_first_error_none(s: Seq<Option<ConfigErrorView>>)
    ensures
        first_error(s) is None <==> forall|i: int| 0 <= i < s.len() ==> (#[trigger] s[i]) is None,
    decreases s.len(),
{
    if s.len() > 0 {
        lemma_first_error_none(s.drop_last());
        if first_error(s) is None {
            assert forall|i: int| 0 <= i < s.len() implies (#[trigger] s[i]) is None by {
                if i < s.len() - 1 {
                    assert(s.drop_last()[i] == s[i]);
                }
            }
        }
        if forall|i: int| 0 <= i < s.len() ==> (#[trigger] s[i]) is None {
            assert forall|i: int| 0 <= i < s.drop_last().len() implies (
            #[trigger] s.drop_last()[i]) is None by {
                assert(s.drop_last()[i] == s[i]);
            }
            assert(s[s.len() - 1] is None);
        }
    }
}

// ---------------------------------------------------------------------------------------------
// Checks
// ---------------------------------------------------------------------------------------------

/// Bare identifier: what can appear as an option or function name without quoting.
fn check_token(field: &'static str, value: &str) -> (r: Result<(), ConfigError>)
    ensures
        err_of(r) == token_error(field@, value@),
{
    let n = value.unicode_len();
    let mut ok = n > 0;
    let mut i: usize = 0;
    while i < n && ok
        invariant
            n == value@.len(),
            i <= n,
            ok == (n > 0 && forall|j: int| 0 <= j < i ==> is_token_char(#[trigger] value@[j])),
        decreases n - i,
    {
        let c = value.get_char(i);
        if !(('a' <= c && c <= 'z') || ('A' <= c && c <= 'Z') || ('0' <= c && c <= '9') || c
            == '_' || c == '-' || c == '.') {
            ok = false;
        }
        i = i + 1;
    }
    if ok {
        assert(is_token(value@));
        Ok(())
    } else {
        Err(ConfigError::BadToken { field, value: value.to_owned() })
    }
}

/// nfqws2 reads its options from a file, one per line, so any newline in a user-supplied value
/// injects an arbitrary option into a process that manipulates the firewall.
fn check_value(field: &'static str, value: &str) -> (r: Result<(), ConfigError>)
    ensures
        err_of(r) == value_error(field@, value@),
{
    if has_char(value, '\n') || has_char(value, '\r') || has_char(value, '\0') {
        Err(ConfigError::UnsafeValue { field, value: value.to_owned() })
    } else {
        Ok(())
    }
}

fn check_opt_value(field: &'static str, value: &Option<String>) -> (r: Result<(), ConfigError>)
    ensures
        err_of(r) == opt_value_error(field@, opt_view(*value)),
{
    match value {
        Some(v) => check_value(field, v.as_str()),
        None => Ok(()),
    }
}

/// Reports the first failing check of a run where `before` held no error.
proof fn lemma_seq_check_step(
    s: Seq<Option<ConfigErrorView>>,
    i: int,
    r: Option<ConfigErrorView>,
)
    requires
        0 <= i < s.len(),
        first_error(s.take(i)) is None,
        r == s[i],
    ensures
        r is None ==> first_error(s.take(i + 1)) is None,
        r is Some ==> first_error(s) == r,
{
    lemma_first_error_step(s, i);
}

impl Filter {
    fn validate(&self) -> (r: Result<(), ConfigError>)
        ensures
            err_of(r) == filter_error(self@),
    {
        let ghost f = self@;
        let ghost fixed = seq![
            opt_value_error("filter.l3"@, f.l3),
            opt_value_error("filter.tcp"@, f.tcp),
            opt_value_error("filter.udp"@, f.udp),
            opt_value_error("filter.hostlist"@, f.hostlist),
            opt_value_error("filter.hostlist_exclude"@, f.hostlist_exclude),
            opt_value_error("filter.hostlist_auto"@, f.hostlist_auto),
            opt_value_error("filter.ipset"@, f.ipset),
            opt_value_error("filter.ipset_exclude"@, f.ipset_exclude),
        ];
        proof {
            reveal_with_fuel(first_error, 9);
        }
        check_opt_value("filter.l3", &self.l3)?;
        check_opt_value("filter.tcp", &self.tcp)?;
        check_opt_value("filter.udp", &self.udp)?;
        check_opt_value("filter.hostlist", &self.hostlist)?;
        check_opt_value("filter.hostlist_exclude", &self.hostlist_exclude)?;
        check_opt_value("filter.hostlist_auto", &self.hostlist_auto)?;
        check_opt_value("filter.ipset", &self.ipset)?;
        check_opt_value("filter.ipset_exclude", &self.ipset_exclude)?;
        assert(first_error(fixed) is None);
        let ghost l7 = f.l7.map_values(|p: Seq<char>| token_error("filter.l7"@, p));
        let n = self.l7.len();
        let mut i: usize = 0;
        assert(l7.take(0) =~= Seq::<Option<ConfigErrorView>>::empty());
        while i < n
            invariant
                n == self.l7@.len(),
                i <= n,
                l7 == self@.l7.map_values(|p: Seq<char>| token_error("filter.l7"@, p)),
                first_error(l7.take(i as int)) is None,
                f == self@,
                fixed == seq![
                    opt_value_error("filter.l3"@, f.l3),
                    opt_value_error("filter.tcp"@, f.tcp),
                    opt_value_error("filter.udp"@, f.udp),
                    opt_value_error("filter.hostlist"@, f.hostlist),
                    opt_value_error("filter.hostlist_exclude"@, f.hostlist_exclude),
                    opt_value_error("filter.hostlist_auto"@, f.hostlist_auto),
                    opt_value_error("filter.ipset"@, f.ipset),
                    opt_value_error("filter.ipset_exclude"@, f.ipset_exclude),
                ],
                first_error(fixed) is None,
            decreases n - i,
        {
            let r = check_token("filter.l7", self.l7[i].as_str());
            proof {
                lemma_seq_check_step(l7, i as int, err_of(r));
            }
            if r.is_err() {
                return r;
            }
            i = i + 1;
        }
        proof {
            lemma_first_error_all(l7);
        }
        Ok(())
    }
}

impl Action {
    pub fn new(function: &str) -> (r: Action)
        ensures
            r@.function == function@,
            r@.payload == Seq::<Seq<char>>::empty(),
            r@.args == Seq::<(Seq<char>, Seq<char>)>::empty(),
    {
        let r = Action { function: function.to_owned(), payload: Vec::new(), args: Args::new() };
        assert(r@.payload =~= Seq::<Seq<char>>::empty());
        r
    }

    /// Sets argument `key` to `value`; an empty value is a bare flag.
    pub fn with(self, key: &str, value: &str) -> (r: Action)
        ensures
            r@.function == self@.function,
            r@.payload == self@.payload,
            r@.args == crate::args::args_insert(self@.args, key@, value@),
    {
        let mut a = self;
        a.args.insert(key.to_owned(), value.to_owned());
        a
    }

    fn validate(&self) -> (r: Result<(), ConfigError>)
        ensures
            err_of(r) == action_error(self@),
    {
        check_token("action function", self.function.as_str())?;
        let ghost payload = self@.payload.map_values(
            |p: Seq<char>| token_error("action payload"@, p),
        );
        let n = self.payload.len();
        let mut i: usize = 0;
        assert(payload.take(0) =~= Seq::<Option<ConfigErrorView>>::empty());
        while i < n
            invariant
                n == self.payload@.len(),
                i <= n,
                payload == self@.payload.map_values(
                    |p: Seq<char>| token_error("action payload"@, p),
                ),
                first_error(payload.take(i as int)) is None,
                token_error("action function"@, self@.function) is None,
            decreases n - i,
        {
            let r = check_token("action payload", self.payload[i].as_str());
            proof {
                lemma_seq_check_step(payload, i as int, err_of(r));
            }
            if r.is_err() {
                return r;
            }
            i = i + 1;
        }
        proof {
            lemma_first_error_all(payload);
        }
        let ghost args = self@.args.map_values(
            |e: (Seq<char>, Seq<char>)| arg_error(e.0, e.1),
        );
        let m = self.args.len();
        let mut j: usize = 0;
        assert(args.take(0) =~= Seq::<Option<ConfigErrorView>>::empty());
        while j < m
            invariant
                m == self@.args.len(),
                j <= m,
                args == self@.args.map_values(|e: (Seq<char>, Seq<char>)| arg_error(e.0, e.1)),
                first_error(args.take(j as int)) is None,
                token_error("action function"@, self@.function) is None,
                first_error(payload) is None,
                payload == self@.payload.map_values(
                    |p: Seq<char>| token_error("action payload"@, p),
                ),
            decreases m - j,
        {
            let (key, value) = self.args.entry(j);
            let r = check_arg(key.as_str(), value.as_str());
            proof {
                lemma_seq_check_step(args, j as int, err_of(r));
            }
            if r.is_err() {
                return r;
            }
            j = j + 1;
        }
        proof {
            lemma_first_error_all(args);
        }
        Ok(())
    }
}

fn check_arg(key: &str, value: &str) -> (r: Result<(), ConfigError>)
    ensures
        err_of(r) == arg_error(key@, value@),
{
    check_token("action argument", key)?;
    // `:` separates arguments inside --lua-desync, so a value containing one would be read as
    // an extra argument.
    if has_char(value, ':') {
        return Err(ConfigError::UnsafeValue { field: "action argument value", value: value.to_owned() });
    }
    check_value("action argument value", value)
}

impl Strategy {
    pub fn new(name: &str) -> (r: Strategy)
        ensures
            r@.name == name@,
            r.enabled,
            r@.filter == Filter::default_view(),
            r@.actions == Seq::<ActionView>::empty(),
    {
        let r = Strategy {
            name: name.to_owned(),
            enabled: true,
            filter: Filter::default(),
            actions: Vec::new(),
        };
        assert(r@.actions =~= Seq::<ActionView>::empty());
        r
    }

    fn validate(&self) -> (r: Result<(), ConfigError>)
        ensures
            err_of(r) == strategy_error(self@),
    {
        check_token("strategy name", self.name.as_str())?;
        self.filter.validate()?;
        let ghost actions = self@.actions.map_values(|a: ActionView| action_error(a));
        let n = self.actions.len();
        let mut i: usize = 0;
        assert(actions.take(0) =~= Seq::<Option<ConfigErrorView>>::empty());
        while i < n
            invariant
                n == self.actions@.len(),
                i <= n,
                actions == self@.actions.map_values(|a: ActionView| action_error(a)),
                first_error(actions.take(i as int)) is None,
                token_error("strategy name"@, self@.name) is None,
                filter_error(self@.filter) is None,
            decreases n - i,
        {
            let r = self.actions[i].validate();
            proof {
                lemma_seq_check_step(actions, i as int, err_of(r));
            }
            if r.is_err() {
                return r;
            }
            i = i + 1;
        }
        proof {
            lemma_first_error_all(actions);
        }
        Ok(())
    }
}

impl Filter {
    pub open spec fn default_view() -> FilterView {
        FilterView {
            l3: None,
            tcp: None,
            udp: None,
            l7: Seq::empty(),
            hostlist: None,
            hostlist_exclude: None,
            hostlist_auto: None,
            ipset: None,
            ipset_exclude: None,
        }
    }
}

impl Default for Filter {
    fn default() -> (r: Filter)
        ensures
            r@ == Filter::default_view(),
    {
        let r = Filter {
            l3: None,
            tcp: None,
            udp: None,
            l7: Vec::new(),
            hostlist: None,
            hostlist_exclude: None,
            hostlist_auto: None,
            ipset: None,
            ipset_exclude: None,
        };
        assert(r@.l7 =~= Seq::<Seq<char>>::empty());
        r
    }
}

/// The name check: blank, a separator or NUL, or a leading dot.
fn name_is_bad(name: &str) -> (r: bool)
    ensures
        r == is_bad_name(name@),
{
    let n = name.unicode_len();
    let mut blank = true;
    let mut i: usize = 0;
    while i < n
        invariant
            n == name@.len(),
            i <= n,
            blank == (forall|j: int| 0 <= j < i ==> is_ws(#[trigger] name@[j])),
        decreases n - i,
    {
        if !is_ws_char(name.get_char(i)) {
            blank = false;
        }
        i = i + 1;
    }
    blank || has_char(name, '/') || has_char(name, '\\') || has_char(name, '\0') || (n > 0
        && name.get_char(0) == '.')
}

impl Config {
    pub fn new(name: &str) -> (r: Config)
        ensures
            r@.schema == SCHEMA_VERSION,
            r@.name == name@,
            r@.notes is None,
            r@.compat == NFQWS2_COMPAT_VER,
            r@.strategies == Seq::<StrategyView>::empty(),
    {
        let r = Config {
            schema: SCHEMA_VERSION,
            name: name.to_owned(),
            notes: None,
            compat: NFQWS2_COMPAT_VER,
            strategies: Vec::new(),
        };
        assert(r@.strategies =~= Seq::<StrategyView>::empty());
        r
    }

    /// Rejects configs that would be misread, escape the configs directory, or smuggle extra
    /// options into the rendered nfqws2 parameter file.
    pub fn validate(&self) -> (r: Result<(), ConfigError>)
        ensures
            err_of(r) == config_error(self@),
    {
        if self.schema > SCHEMA_VERSION {
            return Err(
                ConfigError::UnsupportedSchema { found: self.schema, supported: SCHEMA_VERSION },
            );
        }
        // The name becomes a file stem, so anything that could traverse or reset the path is out.
        if name_is_bad(self.name.as_str()) {
            return Err(ConfigError::BadName);
        }
        let ghost strategies = self@.strategies.map_values(|s: StrategyView| strategy_error(s));
        let n = self.strategies.len();
        let mut i: usize = 0;
        assert(strategies.take(0) =~= Seq::<Option<ConfigErrorView>>::empty());
        while i < n
            invariant
                n == self.strategies@.len(),
                i <= n,
                strategies == self@.strategies.map_values(|s: StrategyView| strategy_error(s)),
                first_error(strategies.take(i as int)) is None,
                self.schema <= SCHEMA_VERSION,
                !is_bad_name(self@.name),
            decreases n - i,
        {
            let r = self.strategies[i].validate();
            proof {
                lemma_seq_check_step(strategies, i as int, err_of(r));
            }
            if r.is_err() {
                return r;
            }
            i = i + 1;
        }
        proof {
            lemma_first_error_all(strategies);
        }
        Ok(())
    }

    /// Separate from [`Self::validate`] because a compat mismatch is a warning the user may
    /// choose to override, not a malformed file.
    pub fn compat_check(&self) -> (r: Result<(), ConfigError>)
        ensures
            err_of(r) == compat_error(self@),
    {
        if self.compat == NFQWS2_COMPAT_VER {
            Ok(())
        } else {
            Err(ConfigError::CompatMismatch { found: self.compat, supported: NFQWS2_COMPAT_VER })
        }
    }
}

// ---------------------------------------------------------------------------------------------
// Messages
// ---------------------------------------------------------------------------------------------

/// What `format!("{:?}", s)` writes for a string: quoted, with escapes.
pub uninterp spec fn debug_str(s: Seq<char>) -> Seq<char>;

/// `<str as Debug>::fmt`: the string quoted, with `\n`, `\"` and the like escaped. Its escaping
/// rules (Unicode printability tables) are std's and are not restated; the result is named.
#[verifier::external_body]
pub(crate) fn debug_quoted(s: &str) -> (r: String)
    ensures
        r@ == debug_str(s@),
{
    format!("{s:?}")
}

pub open spec fn error_message(e: ConfigErrorView) -> Seq<char> {
    match e {
        ConfigErrorView::UnsupportedSchema { found, supported } => "config schema v"@ + decimal(
            found as nat,
        ) + " is newer than supported v"@ + decimal(supported as nat),
        ConfigErrorView::BadName => "config name must be a non-empty single path segment"@,
        ConfigErrorView::BadToken { field, value } => field + " "@ + debug_str(value)
            + " is not a bare identifier"@,
        ConfigErrorView::UnsafeValue { field, value } => field + " "@ + debug_str(value)
            + " contains a character that would inject an nfqws2 option"@,
        ConfigErrorView::CompatMismatch { found, supported } =>
            "config was written for nfqws2 compat v"@ + decimal(found as nat)
            + ", this build renders v"@ + decimal(supported as nat),
    }
}

impl ConfigError {
    /// The human-readable description of the error.
    pub fn message(&self) -> (r: String)
        ensures
            r@ == error_message(self@),
    {
        let mut s = String::new();
        match self {
            ConfigError::UnsupportedSchema { found, supported } => {
                push_str(&mut s, "config schema v");
                push_decimal(&mut s, *found as u64);
                push_str(&mut s, " is newer than supported v");
                push_decimal(&mut s, *supported as u64);
            },
            ConfigError::BadName => {
                push_str(&mut s, "config name must be a non-empty single path segment");
            },
            ConfigError::BadToken { field, value } => {
                push_str(&mut s, field);
                push_str(&mut s, " ");
                push_str(&mut s, debug_quoted(value.as_str()).as_str());
                push_str(&mut s, " is not a bare identifier");
            },
            ConfigError::UnsafeValue { field, value } => {
                push_str(&mut s, field);
                push_str(&mut s, " ");
                push_str(&mut s, debug_quoted(value.as_str()).as_str());
                push_str(&mut s, " contains a character that would inject an nfqws2 option");
            },
            ConfigError::CompatMismatch { found, supported } => {
                push_str(&mut s, "config was written for nfqws2 compat v");
                push_decimal(&mut s, *found as u64);
                push_str(&mut s, ", this build renders v");
                push_decimal(&mut s, *supported as u64);
            },
        }
        s
    }
}

// ---------------------------------------------------------------------------------------------
// Laws
// ---------------------------------------------------------------------------------------------

/// A name is refused exactly when, trimmed, it is empty, or it holds a path separator or NUL, or
/// it starts with a dot.
pub proof fn bad_name_is_blank_separator_or_hidden(n: Seq<char>)
    ensures
        is_bad_name(n) == (trim(n).len() == 0 || n.contains('/') || n.contains('\\') || n.contains(
            '\0',
        ) || (n.len() > 0 && n[0] == '.')),
{
    lemma_trim_empty_iff(n);
}

/// The compat number plays no part in validity: two configs that differ only in it validate
/// alike.
pub proof fn compat_is_separate_from_validity(c: ConfigView, compat: u32)
    ensures
        config_error(c) == config_error(ConfigView { compat, ..c }),
{
}

/// A config passes validation exactly when every strategy, filter value, function, payload and
/// argument passes its check, and the schema and name are acceptable.
pub proof fn valid_means_every_field_checked(c: ConfigView)
    ensures
        config_error(c) is None <==> (c.schema <= SCHEMA_VERSION && !is_bad_name(c.name) && forall|
            i: int,
        | 0 <= i < c.strategies.len() ==> strategy_error(#[trigger] c.strategies[i]) is None),
{
    let s = c.strategies.map_values(|s: StrategyView| strategy_error(s));
    lemma_first_error_none(s);
    if c.schema <= SCHEMA_VERSION && !is_bad_name(c.name) {
        assert(forall|i: int| 0 <= i < c.strategies.len() ==> s[i] == strategy_error(
            #[trigger] c.strategies[i],
        ));
    }
}

} // verus!
