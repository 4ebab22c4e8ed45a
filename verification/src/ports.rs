//! Which ports get queued to the engine. The ports the config's enabled strategies actually filter
//! on decide it: intercepting more than the strategies match is pure CPU cost.

use crate::config::{opt_view, Config, Strategy, StrategyView};
use crate::firewall::{InterceptSpec, InterceptSpecView};
use crate::text::{
    find_char, join, lemma_find_char, lemma_join_front, lemma_lex_asymmetric,
    lemma_lex_irreflexive, lemma_lex_total, lemma_lex_transitive, lex_lt, seq_join, split_on,
    split_str, str_eq, str_lt, trim, trim_end, trim_start, trim_str, views,
};
use vstd::prelude::*;
use vstd::string::*;

verus! {

#[derive(Debug, Clone, Copy, PartialEq, Eq, Structural)]
pub enum Proto {
    Tcp,
    Udp,
}

// ---------------------------------------------------------------------------------------------
// Sorted sets of strings
// ---------------------------------------------------------------------------------------------

pub open spec fn strictly_sorted(s: Seq<Seq<char>>) -> bool {
    forall|i: int, j: int| 0 <= i < j < s.len() ==> lex_lt(#[trigger] s[i], #[trigger] s[j])
}

/// `x` added to the sorted set `s`, in order, unless already there.
pub open spec fn sorted_insert(s: Seq<Seq<char>>, x: Seq<char>) -> Seq<Seq<char>>
    decreases s.len(),
{
    if s.len() == 0 {
        seq![x]
    } else if s[0] == x {
        s
    } else if lex_lt(x, s[0]) {
        seq![x] + s
    } else {
        seq![s[0]] + sorted_insert(s.skip(1), x)
    }
}

/// The distinct elements of `s`, sorted: what `sort_unstable` then `dedup` leave.
pub open spec fn sort_dedup(s: Seq<Seq<char>>) -> Seq<Seq<char>>
    decreases s.len(),
{
    if s.len() == 0 {
        Seq::empty()
    } else {
        sorted_insert(sort_dedup(s.drop_last()), s.last())
    }
}

proof fn lemma_sorted_tail(s: Seq<Seq<char>>)
    requires
        strictly_sorted(s),
        s.len() > 0,
    ensures
        strictly_sorted(s.skip(1)),
{
    let t = s.skip(1);
    assert forall|a: int, b: int| 0 <= a < b < t.len() implies lex_lt(
        #[trigger] t[a],
        #[trigger] t[b],
    ) by {
        assert(t[a] == s[a + 1] && t[b] == s[b + 1]);
    }
}

/// Inserting keeps the set sorted, adds exactly `x`, and drops nothing.
pub proof fn lemma_sorted_insert(s: Seq<Seq<char>>, x: Seq<char>)
    requires
        strictly_sorted(s),
    ensures
        strictly_sorted(sorted_insert(s, x)),
        sorted_insert(s, x).to_set() == s.to_set().insert(x),
    decreases s.len(),
{
    let r = sorted_insert(s, x);
    if s.len() == 0 {
        assert(r.to_set() =~= s.to_set().insert(x)) by {
            assert(r[0] == x);
        }
    } else if s[0] == x {
        assert(s.to_set().insert(x) =~= s.to_set()) by {
            assert(s.contains(x));
        }
    } else if lex_lt(x, s[0]) {
        assert forall|a: int, b: int| 0 <= a < b < r.len() implies lex_lt(
            #[trigger] r[a],
            #[trigger] r[b],
        ) by {
            if a == 0 {
                assert(r[b] == s[b - 1]);
                if b > 1 {
                    lemma_lex_transitive(x, s[0], s[b - 1]);
                }
            } else {
                assert(r[a] == s[a - 1] && r[b] == s[b - 1]);
            }
        }
        assert(r.to_set() =~= s.to_set().insert(x)) by {
            assert forall|e: Seq<char>| r.to_set().contains(e) implies s.to_set().insert(
                x,
            ).contains(e) by {
                let k = choose|k: int| 0 <= k < r.len() && r[k] == e;
                if k > 0 {
                    assert(s[k - 1] == e);
                }
            }
            assert forall|e: Seq<char>| s.to_set().insert(x).contains(e) implies r.to_set().contains(
                e,
            ) by {
                if e == x {
                    assert(r[0] == x);
                } else {
                    let k = choose|k: int| 0 <= k < s.len() && s[k] == e;
                    assert(r[k + 1] == e);
                }
            }
        }
    } else {
        let t = s.skip(1);
        lemma_sorted_tail(s);
        lemma_sorted_insert(t, x);
        lemma_lex_total(x, s[0]);
        let rt = sorted_insert(t, x);
        assert(r == seq![s[0]] + rt);
        assert forall|a: int, b: int| 0 <= a < b < r.len() implies lex_lt(
            #[trigger] r[a],
            #[trigger] r[b],
        ) by {
            if a == 0 {
                assert(r[b] == rt[b - 1]);
                assert(rt.to_set().contains(rt[b - 1]));
                let e = rt[b - 1];
                if e != x {
                    assert(t.to_set().contains(e));
                    let m = choose|m: int| 0 <= m < t.len() && t[m] == e;
                    assert(s[m + 1] == e);
                }
            } else {
                assert(r[a] == rt[a - 1] && r[b] == rt[b - 1]);
            }
        }
        assert(r.to_set() =~= s.to_set().insert(x)) by {
            assert forall|e: Seq<char>| r.to_set().contains(e) implies s.to_set().insert(
                x,
            ).contains(e) by {
                let k = choose|k: int| 0 <= k < r.len() && r[k] == e;
                if k > 0 {
                    assert(rt[k - 1] == e);
                    assert(rt.to_set().contains(e));
                    if e != x {
                        let m = choose|m: int| 0 <= m < t.len() && t[m] == e;
                        assert(s[m + 1] == e);
                    }
                }
            }
            assert forall|e: Seq<char>| s.to_set().insert(x).contains(e) implies r.to_set().contains(
                e,
            ) by {
                if e == s[0] {
                    assert(r[0] == e);
                } else if e == x {
                    assert(rt.to_set().contains(x));
                    let k = choose|k: int| 0 <= k < rt.len() && rt[k] == x;
                    assert(r[k + 1] == x);
                } else {
                    let k = choose|k: int| 0 <= k < s.len() && s[k] == e;
                    assert(k > 0);
                    assert(t[k - 1] == e);
                    assert(t.to_set().contains(e));
                    assert(rt.to_set().contains(e));
                    let j = choose|j: int| 0 <= j < rt.len() && rt[j] == e;
                    assert(r[j + 1] == e);
                }
            }
        }
    }
}

/// Sorting and removing duplicates leaves every distinct element exactly once, in order.
pub proof fn sort_dedup_is_sorted_and_keeps_every_port(s: Seq<Seq<char>>)
    ensures
        strictly_sorted(sort_dedup(s)),
        sort_dedup(s).to_set() == s.to_set(),
    decreases s.len(),
{
    if s.len() == 0 {
        assert(sort_dedup(s).to_set() =~= s.to_set());
    } else {
        sort_dedup_is_sorted_and_keeps_every_port(s.drop_last());
        lemma_sorted_insert(sort_dedup(s.drop_last()), s.last());
        assert(s.to_set() =~= s.drop_last().to_set().insert(s.last())) by {
            assert forall|e: Seq<char>| s.to_set().contains(e) implies s.drop_last().to_set().insert(
                s.last(),
            ).contains(e) by {
                let k = choose|k: int| 0 <= k < s.len() && s[k] == e;
                if k < s.len() - 1 {
                    assert(s.drop_last()[k] == e);
                }
            }
            assert forall|e: Seq<char>| s.drop_last().to_set().insert(s.last()).contains(
                e,
            ) implies s.to_set().contains(e) by {
                if e != s.last() {
                    let k = choose|k: int| 0 <= k < s.drop_last().len() && s.drop_last()[k] == e;
                    assert(s[k] == e);
                } else {
                    assert(s[s.len() - 1] == e);
                }
            }
        }
    }
}

proof fn lemma_sorted_insert_position(s: Seq<Seq<char>>, x: Seq<char>, i: int)
    requires
        strictly_sorted(s),
        0 <= i <= s.len(),
        forall|j: int| 0 <= j < i ==> lex_lt(#[trigger] s[j], x),
        i == s.len() || !lex_lt(s[i], x),
    ensures
        i < s.len() && s[i] == x ==> sorted_insert(s, x) == s,
        !(i < s.len() && s[i] == x) ==> sorted_insert(s, x) == s.insert(i, x),
    decreases s.len(),
{
    if s.len() == 0 {
        assert(s.insert(0, x) =~= seq![x]);
    } else if i == 0 {
        if s[0] != x {
            lemma_lex_total(s[0], x);
            assert(s.insert(0, x) =~= seq![x] + s);
        }
    } else {
        let t = s.skip(1);
        lemma_lex_asymmetric(s[0], x);
        lemma_lex_irreflexive(x);
        assert(s[0] != x);
        lemma_sorted_tail(s);
        assert forall|j: int| 0 <= j < i - 1 implies lex_lt(#[trigger] t[j], x) by {
            assert(t[j] == s[j + 1]);
        }
        lemma_sorted_insert_position(t, x, i - 1);
        if i < s.len() && s[i] == x {
            assert(seq![s[0]] + t =~= s);
        } else {
            assert(s.insert(i, x) =~= seq![s[0]] + t.insert(i - 1, x));
        }
    }
}

/// Adds `x` to the sorted set `set`.
pub(crate) fn insert_sorted(set: &mut Vec<String>, x: String)
    requires
        strictly_sorted(views(old(set)@)),
    ensures
        views(final(set)@) == sorted_insert(views(old(set)@), x@),
        strictly_sorted(views(final(set)@)),
{
    let ghost s = views(set@);
    proof {
        lemma_sorted_insert(s, x@);
    }
    let n = set.len();
    let mut i: usize = 0;
    while i < n && str_lt(set[i].as_str(), x.as_str())
        invariant
            n == set@.len(),
            s == views(set@),
            i <= n,
            forall|j: int| 0 <= j < i ==> lex_lt(#[trigger] s[j], x@),
        decreases n - i,
    {
        i = i + 1;
    }
    proof {
        lemma_sorted_insert_position(s, x@, i as int);
    }
    if i < n && str_eq(set[i].as_str(), x.as_str()) {
        return;
    }
    set.insert(i, x);
    assert(views(set@) =~= s.insert(i as int, x@));
}

// ---------------------------------------------------------------------------------------------
// Ports
// ---------------------------------------------------------------------------------------------

/// A piece of a port filter that can go in an nftables set: `~` negates and `*` means
/// everything, and neither is a port.
pub open spec fn is_set_port(p: Seq<char>) -> bool {
    p.len() > 0 && p[0] != '~' && p != "*"@
}

pub open spec fn pick(s: StrategyView, proto: Proto) -> Option<Seq<char>> {
    match proto {
        Proto::Tcp => s.filter.tcp,
        Proto::Udp => s.filter.udp,
    }
}

/// The usable ports of one filter value, in order: split at commas and trimmed.
pub open spec fn filter_ports(value: Seq<char>) -> Seq<Seq<char>> {
    split_on(value, ',').map_values(|p: Seq<char>| trim(p)).filter(|p: Seq<char>| is_set_port(p))
}

/// Every usable port the enabled strategies name for `proto`, in order, duplicates kept.
pub open spec fn port_candidates(ss: Seq<StrategyView>, proto: Proto) -> Seq<Seq<char>>
    decreases ss.len(),
{
    if ss.len() == 0 {
        Seq::empty()
    } else {
        port_candidates(ss.drop_last(), proto) + match pick(ss.last(), proto) {
            Some(v) => if ss.last().enabled {
                filter_ports(v)
            } else {
                Seq::empty()
            },
            None => Seq::empty(),
        }
    }
}

/// The comma-joined port set for `proto`: every usable port of the enabled strategies, sorted,
/// each once.
pub open spec fn ports_text(ss: Seq<StrategyView>, proto: Proto) -> Seq<char> {
    seq_join(sort_dedup(port_candidates(ss, proto)), ","@)
}

fn pick_value(s: &Strategy, proto: Proto) -> (r: &Option<String>)
    ensures
        opt_view(*r) == pick(s@, proto),
{
    match proto {
        Proto::Tcp => &s.filter.tcp,
        Proto::Udp => &s.filter.udp,
    }
}

/// Adds the usable ports of `value` to `set`.
fn add_filter_ports(set: &mut Vec<String>, value: &str)
    requires
        strictly_sorted(views(old(set)@)),
    ensures
        strictly_sorted(views(final(set)@)),
        forall|a: Seq<Seq<char>>|
            views(old(set)@) == sort_dedup(a) ==> views(final(set)@) == sort_dedup(
                a + filter_ports(value@),
            ),
{
    let pieces = split_str(value, ',');
    let ghost trimmed = split_on(value@, ',').map_values(|p: Seq<char>| trim(p));
    let ghost start = views(set@);
    let n = pieces.len();
    let mut i: usize = 0;
    let ghost mut kept: Seq<Seq<char>> = Seq::empty();
    assert(trimmed.take(0).filter(|p: Seq<char>| is_set_port(p)) =~= Seq::<Seq<char>>::empty())
        by {
        reveal(Seq::filter);
    }
    while i < n
        invariant
            n == pieces@.len(),
            views(pieces@) == split_on(value@, ','),
            trimmed == split_on(value@, ',').map_values(|p: Seq<char>| trim(p)),
            i <= n,
            kept == trimmed.take(i as int).filter(|p: Seq<char>| is_set_port(p)),
            strictly_sorted(views(set@)),
            forall|a: Seq<Seq<char>>|
                start == sort_dedup(a) ==> views(set@) == sort_dedup(a + kept),
        decreases n - i,
    {
        let p = trim_str(pieces[i].as_str());
        assert(p@ == trimmed[i as int]);
        let usable = !p.as_str().is_empty() && p.as_str().get_char(0) != '~' && !str_eq(
            p.as_str(),
            "*",
        );
        assert(usable == is_set_port(p@));
        let ghost before = views(set@);
        let ghost kept_before = kept;
        if usable {
            insert_sorted(set, p);
        }
        proof {
            reveal(Seq::filter);
            let t = trimmed.take(i + 1);
            assert(t.drop_last() =~= trimmed.take(i as int));
            assert(t.last() == trimmed[i as int]);
            kept = t.filter(|p: Seq<char>| is_set_port(p));
            if usable {
                assert(kept == kept_before.push(trimmed[i as int]));
                assert forall|a: Seq<Seq<char>>| start == sort_dedup(a) implies views(set@)
                    == sort_dedup(a + kept) by {
                    assert((a + kept).drop_last() =~= a + kept_before);
                    assert((a + kept).last() == trimmed[i as int]);
                }
            } else {
                assert(kept == kept_before);
            }
        }
        i = i + 1;
    }
    assert(trimmed.take(n as int) =~= trimmed);
}

/// Ports the config's enabled strategies select for `proto`, merged, sorted and deduplicated,
/// joined by commas.
pub fn collect_ports(strategies: &Vec<Strategy>, proto: Proto) -> (r: String)
    ensures
        r@ == ports_text(strategies@.map_values(|s: Strategy| s@), proto),
{
    let ghost ss = strategies@.map_values(|s: Strategy| s@);
    let mut set: Vec<String> = Vec::new();
    let n = strategies.len();
    let mut i: usize = 0;
    assert(views(set@) =~= sort_dedup(port_candidates(ss.take(0), proto)));
    while i < n
        invariant
            n == strategies@.len(),
            ss == strategies@.map_values(|s: Strategy| s@),
            i <= n,
            strictly_sorted(views(set@)),
            views(set@) == sort_dedup(port_candidates(ss.take(i as int), proto)),
        decreases n - i,
    {
        let s = &strategies[i];
        let ghost prefix = port_candidates(ss.take(i as int), proto);
        if s.enabled {
            if let Some(v) = pick_value(s, proto) {
                add_filter_ports(&mut set, v.as_str());
            }
        }
        proof {
            let t = ss.take(i + 1);
            assert(t.drop_last() =~= ss.take(i as int));
            assert(t.last() == s@);
            if !(s.enabled && pick(s@, proto) is Some) {
                assert(port_candidates(t, proto) =~= prefix);
            }
        }
        i = i + 1;
    }
    assert(ss.take(n as int) =~= ss);
    join(&set, ",")
}

/// What [`intercept_spec`] refuses: a config that would intercept nothing.
pub open spec fn nothing_to_intercept_message() -> Seq<char> {
    "no enabled strategy selects any TCP or UDP port, so nothing would be intercepted"@
}

/// The interception for `config` on `wan_iface`: the ports its enabled strategies select, or an
/// error when they select none.
pub fn intercept_spec(config: &Config, queue_num: u16, wan_iface: &str) -> (r: Result<
    InterceptSpec,
    String,
>)
    ensures
        ({
            let tcp = ports_text(config@.strategies, Proto::Tcp);
            let udp = ports_text(config@.strategies, Proto::Udp);
            match r {
                Ok(spec) => {
                    &&& spec@ == InterceptSpecView {
                        wan_iface: wan_iface@,
                        tcp_ports: tcp,
                        udp_ports: udp,
                        queue_num,
                        max_pkt_out: 15,
                        max_pkt_in: 15,
                    }
                    &&& (tcp.len() > 0 || udp.len() > 0)
                },
                Err(m) => m@ == nothing_to_intercept_message() && tcp.len() == 0 && udp.len() == 0,
            }
        }),
{
    let mut spec = InterceptSpec::new(wan_iface, queue_num);
    spec.tcp_ports = collect_ports(&config.strategies, Proto::Tcp);
    spec.udp_ports = collect_ports(&config.strategies, Proto::Udp);
    if spec.tcp_ports.as_str().is_empty() && spec.udp_ports.as_str().is_empty() {
        return Err(
            "no enabled strategy selects any TCP or UDP port, so nothing would be intercepted".to_owned(),
        );
    }
    Ok(spec)
}

// ---------------------------------------------------------------------------------------------
// Laws
// ---------------------------------------------------------------------------------------------

proof fn lemma_candidates_are_ports(ss: Seq<StrategyView>, proto: Proto)
    ensures
        forall|i: int|
            0 <= i < port_candidates(ss, proto).len() ==> is_set_port(
                #[trigger] port_candidates(ss, proto)[i],
            ),
    decreases ss.len(),
{
    if ss.len() > 0 {
        lemma_candidates_are_ports(ss.drop_last(), proto);
        let before = port_candidates(ss.drop_last(), proto);
        let all = port_candidates(ss, proto);
        assert forall|i: int| 0 <= i < all.len() implies is_set_port(#[trigger] all[i]) by {
            if i >= before.len() {
                if let Some(v) = pick(ss.last(), proto) {
                    if ss.last().enabled {
                        let trimmed = split_on(v, ',').map_values(|p: Seq<char>| trim(p));
                        trimmed.lemma_filter_pred(|p: Seq<char>| is_set_port(p), i - before.len());
                    }
                }
            }
        }
    }
}

/// A wildcard, a negation or an empty piece is never queued: every port in the set can go in an
/// nftables set.
pub proof fn every_collected_port_is_a_real_port(ss: Seq<StrategyView>, proto: Proto)
    ensures
        forall|i: int|
            0 <= i < sort_dedup(port_candidates(ss, proto)).len() ==> is_set_port(
                #[trigger] sort_dedup(port_candidates(ss, proto))[i],
            ),
{
    let c = port_candidates(ss, proto);
    lemma_candidates_are_ports(ss, proto);
    sort_dedup_is_sorted_and_keeps_every_port(c);
    assert forall|i: int| 0 <= i < sort_dedup(c).len() implies is_set_port(
        #[trigger] sort_dedup(c)[i],
    ) by {
        assert(sort_dedup(c).to_set().contains(sort_dedup(c)[i]));
        assert(c.to_set().contains(sort_dedup(c)[i]));
        let k = choose|k: int| 0 <= k < c.len() && c[k] == sort_dedup(c)[i];
        assert(is_set_port(c[k]));
    }
}

/// A disabled strategy adds no port to what the others select.
pub proof fn disabled_strategies_contribute_no_ports(
    ss: Seq<StrategyView>,
    s: StrategyView,
    proto: Proto,
)
    requires
        !s.enabled,
    ensures
        ports_text(ss.push(s), proto) == ports_text(ss, proto),
{
    assert(ss.push(s).drop_last() =~= ss);
    assert(port_candidates(ss.push(s), proto) =~= port_candidates(ss, proto));
}


proof fn lemma_piece_is_candidate(ss: Seq<StrategyView>, proto: Proto, i: int, v: Seq<char>, k: int)
    requires
        0 <= i < ss.len(),
        ss[i].enabled,
        pick(ss[i], proto) == Some(v),
        0 <= k < split_on(v, ',').len(),
        is_set_port(trim(split_on(v, ',')[k])),
    ensures
        port_candidates(ss, proto).contains(trim(split_on(v, ',')[k])),
    decreases ss.len(),
{
    let p = trim(split_on(v, ',')[k]);
    let before = port_candidates(ss.drop_last(), proto);
    if i < ss.len() - 1 {
        assert(ss.drop_last()[i] == ss[i]);
        lemma_piece_is_candidate(ss.drop_last(), proto, i, v, k);
        let j = choose|j: int| 0 <= j < before.len() && before[j] == p;
        assert(port_candidates(ss, proto)[j] == p);
    } else {
        let trimmed = split_on(v, ',').map_values(|q: Seq<char>| trim(q));
        assert(trimmed[k] == p);
        trimmed.filter_lemma(|q: Seq<char>| is_set_port(q));
        let f = filter_ports(v);
        assert(f.contains(p));
        let j = choose|j: int| 0 <= j < f.len() && f[j] == p;
        assert(port_candidates(ss, proto) == before + f);
        assert(port_candidates(ss, proto)[before.len() + j] == p);
    }
}

/// No usable port is dropped: every comma-separated piece of an enabled strategy's filter value
/// for the protocol that, trimmed, is non-empty, does not start with `~` and is not `*` (a
/// single port or a range such as `1-1023`) is in the collected port set.
pub proof fn every_usable_port_is_collected(
    ss: Seq<StrategyView>,
    proto: Proto,
    i: int,
    v: Seq<char>,
    k: int,
)
    requires
        0 <= i < ss.len(),
        ss[i].enabled,
        proto == Proto::Tcp ==> ss[i].filter.tcp == Some(v),
        proto == Proto::Udp ==> ss[i].filter.udp == Some(v),
        0 <= k < split_on(v, ',').len(),
        trim(split_on(v, ',')[k]).len() > 0,
        trim(split_on(v, ',')[k])[0] != '~',
        trim(split_on(v, ',')[k]) != "*"@,
    ensures
        sort_dedup(port_candidates(ss, proto)).contains(trim(split_on(v, ',')[k])),
{
    let p = trim(split_on(v, ',')[k]);
    lemma_piece_is_candidate(ss, proto, i, v, k);
    let c = port_candidates(ss, proto);
    sort_dedup_is_sorted_and_keeps_every_port(c);
    let j = choose|j: int| 0 <= j < c.len() && c[j] == p;
    assert(c.to_set().contains(p));
    assert(sort_dedup(c).to_set().contains(p));
}

/// `p` is a usable piece of an enabled strategy's filter value for `proto`: a comma-separated
/// piece that, trimmed, is `p`, non-empty, not starting with `~` and not `*`.
pub open spec fn comes_from_usable_piece(ss: Seq<StrategyView>, proto: Proto, p: Seq<char>) -> bool {
    exists|i: int, v: Seq<char>, k: int|
        #![trigger ss[i], split_on(v, ',')[k]]
        0 <= i < ss.len() && ss[i].enabled && (if proto == Proto::Tcp {
            ss[i].filter.tcp
        } else {
            ss[i].filter.udp
        }) == Some(v) && 0 <= k < split_on(v, ',').len() && trim(split_on(v, ',')[k]) == p
            && p.len() > 0 && p[0] != '~' && p != "*"@
}

proof fn lemma_candidate_source(ss: Seq<StrategyView>, proto: Proto, m: int)
    requires
        0 <= m < port_candidates(ss, proto).len(),
    ensures
        comes_from_usable_piece(ss, proto, port_candidates(ss, proto)[m]),
    decreases ss.len(),
{
    let p = port_candidates(ss, proto)[m];
    let before = port_candidates(ss.drop_last(), proto);
    if m < before.len() {
        assert(p == before[m]);
        lemma_candidate_source(ss.drop_last(), proto, m);
        let (i, v, k) = choose|i: int, v: Seq<char>, k: int|
            #![trigger ss.drop_last()[i], split_on(v, ',')[k]]
            0 <= i < ss.drop_last().len() && ss.drop_last()[i].enabled && (if proto == Proto::Tcp {
                ss.drop_last()[i].filter.tcp
            } else {
                ss.drop_last()[i].filter.udp
            }) == Some(v) && 0 <= k < split_on(v, ',').len() && trim(split_on(v, ',')[k]) == p
                && p.len() > 0 && p[0] != '~' && p != "*"@;
        assert(ss.drop_last()[i] == ss[i]);
        assert(split_on(v, ',')[k] == split_on(v, ',')[k]);
    } else {
        let s = ss.last();
        let v = pick(s, proto)->0;
        assert(pick(s, proto) is Some && s.enabled);
        let trimmed = split_on(v, ',').map_values(|q: Seq<char>| trim(q));
        let f = trimmed.filter(|q: Seq<char>| is_set_port(q));
        assert(port_candidates(ss, proto) == before + f);
        assert(p == f[m - before.len()]);
        trimmed.filter_lemma(|q: Seq<char>| is_set_port(q));
        assert(is_set_port(p));
        assert(f.contains(p));
        trimmed.lemma_filter_contains_rev(|q: Seq<char>| is_set_port(q), p);
        let k = choose|k: int| 0 <= k < trimmed.len() && trimmed[k] == p;
        let i = ss.len() - 1;
        assert(ss[i] == s);
        assert(trim(split_on(v, ',')[k]) == p);
    }
}

/// Nothing else is collected: every port in the set is a usable piece of an enabled strategy's
/// filter value for the protocol, trimmed, non-empty, not a negation (`~`) and not the wildcard.
pub proof fn every_collected_port_comes_from_a_usable_piece(ss: Seq<StrategyView>, proto: Proto)
    ensures
        forall|j: int|
            0 <= j < sort_dedup(port_candidates(ss, proto)).len() ==> comes_from_usable_piece(
                ss,
                proto,
                #[trigger] sort_dedup(port_candidates(ss, proto))[j],
            ),
{
    let c = port_candidates(ss, proto);
    sort_dedup_is_sorted_and_keeps_every_port(c);
    assert forall|j: int| 0 <= j < sort_dedup(c).len() implies comes_from_usable_piece(
        ss,
        proto,
        #[trigger] sort_dedup(c)[j],
    ) by {
        assert(sort_dedup(c).to_set().contains(sort_dedup(c)[j]));
        assert(c.to_set().contains(sort_dedup(c)[j]));
        let m = choose|m: int| 0 <= m < c.len() && c[m] == sort_dedup(c)[j];
        lemma_candidate_source(ss, proto, m);
    }
}

proof fn lemma_trim_free(x: Seq<char>, c: char)
    requires
        !x.contains(c),
    ensures
        !trim(x).contains(c),
{
    lemma_trim_start_free(x, c);
    lemma_trim_end_free(trim_start(x), c);
}

proof fn lemma_trim_start_free(x: Seq<char>, c: char)
    requires
        !x.contains(c),
    ensures
        !trim_start(x).contains(c),
    decreases x.len(),
{
    if x.len() > 0 && crate::text::is_ws(x[0]) {
        if x.skip(1).contains(c) {
            let j = choose|j: int| 0 <= j < x.skip(1).len() && x.skip(1)[j] == c;
            assert(x[j + 1] == c);
        }
        lemma_trim_start_free(x.skip(1), c);
    }
}

proof fn lemma_trim_end_free(x: Seq<char>, c: char)
    requires
        !x.contains(c),
    ensures
        !trim_end(x).contains(c),
    decreases x.len(),
{
    if x.len() > 0 && crate::text::is_ws(x.last()) {
        if x.drop_last().contains(c) {
            let j = choose|j: int| 0 <= j < x.drop_last().len() && x.drop_last()[j] == c;
            assert(x[j] == c);
        }
        lemma_trim_end_free(x.drop_last(), c);
    }
}

proof fn lemma_split_pieces_free(x: Seq<char>, c: char)
    ensures
        forall|k: int| 0 <= k < split_on(x, c).len() ==> !(#[trigger] split_on(x, c)[k]).contains(c),
    decreases x.len(),
{
    lemma_find_char(x, c);
    if x.contains(c) {
        let i = find_char(x, c);
        lemma_split_pieces_free(x.skip(i + 1), c);
        let rest = split_on(x.skip(i + 1), c);
        assert(split_on(x, c) == seq![x.take(i)] + rest);
        assert forall|k: int| 0 <= k < split_on(x, c).len() implies !(#[trigger] split_on(
            x,
            c,
        )[k]).contains(c) by {
            if k == 0 {
                if x.take(i).contains(c) {
                    let j = choose|j: int| 0 <= j < x.take(i).len() && x.take(i)[j] == c;
                    assert(x[j] == c);
                }
            } else {
                assert(split_on(x, c)[k] == rest[k - 1]);
            }
        }
    }
}

/// Pieces without commas, joined by commas, split back into themselves.
proof fn lemma_split_joined(list: Seq<Seq<char>>)
    requires
        list.len() > 0,
        forall|i: int| 0 <= i < list.len() ==> !(#[trigger] list[i]).contains(','),
    ensures
        split_on(seq_join(list, ","@), ',') == list,
    decreases list.len(),
{
    reveal_strlit(",");
    if list.len() == 1 {
        assert(!list[0].contains(','));
        assert(list =~= seq![list[0]]);
    } else {
        lemma_join_front(list, ","@);
        let head = list[0];
        let rest = list.skip(1);
        assert forall|i: int| 0 <= i < rest.len() implies !(#[trigger] rest[i]).contains(',') by {
            assert(rest[i] == list[i + 1]);
        }
        lemma_split_joined(rest);
        let j = seq_join(list, ","@);
        assert(j =~= head + ","@ + seq_join(rest, ","@));
        assert(j[head.len() as int] == ',');
        lemma_find_char(j, ',');
        let f = find_char(j, ',');
        assert(!head.contains(','));
        if f < head.len() {
            assert(j[f] == head[f]);
        }
        assert(f == head.len());
        assert(j.take(f) =~= head);
        assert(j.skip(f + 1) =~= seq_join(rest, ","@));
        assert(list =~= seq![head] + rest);
    }
}

/// The collected set as the text the ruleset receives: its comma-separated pieces are exactly
/// the set's ports, in order.
proof fn lemma_port_text_pieces(ss: Seq<StrategyView>, proto: Proto)
    requires
        sort_dedup(port_candidates(ss, proto)).len() > 0,
    ensures
        split_on(ports_text(ss, proto), ',') == sort_dedup(port_candidates(ss, proto)),
{
    let c = port_candidates(ss, proto);
    let set = sort_dedup(c);
    every_collected_port_comes_from_a_usable_piece(ss, proto);
    assert forall|i: int| 0 <= i < set.len() implies !(#[trigger] set[i]).contains(',') by {
        assert(comes_from_usable_piece(ss, proto, set[i]));
        let (a, v, k) = choose|a: int, v: Seq<char>, k: int|
            #![trigger ss[a], split_on(v, ',')[k]]
            0 <= a < ss.len() && ss[a].enabled && (if proto == Proto::Tcp {
                ss[a].filter.tcp
            } else {
                ss[a].filter.udp
            }) == Some(v) && 0 <= k < split_on(v, ',').len() && trim(split_on(v, ',')[k]) == set[i]
                && set[i].len() > 0 && set[i][0] != '~' && set[i] != "*"@;
        lemma_split_pieces_free(v, ',');
        assert(!split_on(v, ',')[k].contains(','));
        lemma_trim_free(split_on(v, ',')[k], ',');
    }
    lemma_split_joined(set);
}

/// The port text the ruleset receives, read back at its commas: every usable piece of an enabled
/// strategy's filter value for the protocol is one of its pieces, every piece is such a usable
/// piece, and no piece appears twice.
pub proof fn the_port_text_lists_each_usable_port_once(
    ss: Seq<StrategyView>,
    proto: Proto,
    i: int,
    v: Seq<char>,
    k: int,
)
    requires
        0 <= i < ss.len(),
        ss[i].enabled,
        proto == Proto::Tcp ==> ss[i].filter.tcp == Some(v),
        proto == Proto::Udp ==> ss[i].filter.udp == Some(v),
        0 <= k < split_on(v, ',').len(),
        trim(split_on(v, ',')[k]).len() > 0,
        trim(split_on(v, ',')[k])[0] != '~',
        trim(split_on(v, ',')[k]) != "*"@,
    ensures
        split_on(ports_text(ss, proto), ',').contains(trim(split_on(v, ',')[k])),
        forall|j: int|
            0 <= j < split_on(ports_text(ss, proto), ',').len() ==> comes_from_usable_piece(
                ss,
                proto,
                #[trigger] split_on(ports_text(ss, proto), ',')[j],
            ),
        forall|a: int, b: int|
            0 <= a < b < split_on(ports_text(ss, proto), ',').len() ==> #[trigger] split_on(
                ports_text(ss, proto),
                ',',
            )[a] != #[trigger] split_on(ports_text(ss, proto), ',')[b],
{
    every_usable_port_is_collected(ss, proto, i, v, k);
    let set = sort_dedup(port_candidates(ss, proto));
    assert(set.len() > 0);
    lemma_port_text_pieces(ss, proto);
    every_collected_port_comes_from_a_usable_piece(ss, proto);
    sort_dedup_is_sorted_and_keeps_every_port(port_candidates(ss, proto));
    assert forall|a: int, b: int| 0 <= a < b < set.len() implies #[trigger] set[a] != #[trigger] set[b] by {
        assert(lex_lt(set[a], set[b]));
        lemma_lex_irreflexive(set[a]);
    }
}
} // verus!
