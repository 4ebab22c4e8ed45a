//! Linux packet interception: the nftables table that feeds traffic to the engine's NFQUEUE.
//!
//! Everything lives in one dedicated table, so teardown is `nft delete table inet blkbstr` — one
//! atomic operation that cannot touch another program's rules. Applying the script and deleting
//! the table are done by the daemon; what is here is the script and the route parsing.

use crate::text::{
    decimal, is_digit, is_prefix, lemma_contains_concat, lemma_decimal_digits,
    lemma_lines_of_joined_stripped, lines, lines_of, push_decimal, push_str, seq_join, starts_with,
    str_eq, strip_cr, views, words, words_of,
};
use vstd::prelude::*;
use vstd::string::*;

verus! {

/// Table name; also the handle used to tear everything down.
pub const TABLE: &'static str = "blkbstr";

/// Bit set on packets the engine emits, so the rules can skip them. Without it, generated packets
/// re-enter the queue and the machine locks up. Matches nfqws2's `--fwmark` default.
pub const FWMARK: &'static str = "0x40000000";


#[derive(Debug, Clone, PartialEq, Eq)]
pub struct InterceptSpec {
    /// Interface traffic leaves by. Interception is scoped to it so loopback and LAN traffic are
    /// not queued into userspace for nothing.
    pub wan_iface: String,
    /// Comma-separated, already validated, e.g. `80,443`.
    pub tcp_ports: String,
    pub udp_ports: String,
    pub queue_num: u16,
    /// How many packets from the start of a flow to intercept.
    pub max_pkt_out: u16,
    pub max_pkt_in: u16,
}

pub struct InterceptSpecView {
    pub wan_iface: Seq<char>,
    pub tcp_ports: Seq<char>,
    pub udp_ports: Seq<char>,
    pub queue_num: u16,
    pub max_pkt_out: u16,
    pub max_pkt_in: u16,
}

impl View for InterceptSpec {
    type V = InterceptSpecView;

    open spec fn view(&self) -> InterceptSpecView {
        InterceptSpecView {
            wan_iface: self.wan_iface@,
            tcp_ports: self.tcp_ports@,
            udp_ports: self.udp_ports@,
            queue_num: self.queue_num,
            max_pkt_out: self.max_pkt_out,
            max_pkt_in: self.max_pkt_in,
        }
    }
}

impl InterceptSpec {
    pub fn new(wan_iface: &str, queue_num: u16) -> (r: Self)
        ensures
            r@.wan_iface == wan_iface@,
            r@.tcp_ports == "80,443"@,
            r@.udp_ports == "443"@,
            r@.queue_num == queue_num,
            r@.max_pkt_out == 15,
            r@.max_pkt_in == 15,
    {
        InterceptSpec {
            wan_iface: wan_iface.to_owned(),
            tcp_ports: "80,443".to_owned(),
            udp_ports: "443".to_owned(),
            queue_num,
            max_pkt_out: 15,
            max_pkt_in: 15,
        }
    }
}

// ---------------------------------------------------------------------------------------------
// The script
// ---------------------------------------------------------------------------------------------

/// Outgoing rule for one protocol: the first packets of each flow, after NAT, unless the engine
/// itself marked them.
pub open spec fn postnat_rule(
    wan: Seq<char>,
    proto: Seq<char>,
    ports: Seq<char>,
    count: u16,
    q: u16,
) -> Seq<char> {
    "add rule inet blkbstr postnat oifname \""@ + wan + "\" meta mark and 0x40000000 == 0 "@
        + proto + " dport { "@ + ports + " } ct original packets 1-"@ + decimal(count as nat)
        + " queue num "@ + decimal(q as nat) + " bypass\n"@
}

/// Outgoing FIN/RST, so the engine's conntrack retires flows promptly.
pub open spec fn postnat_finrst(wan: Seq<char>, ports: Seq<char>, q: u16) -> Seq<char> {
    "add rule inet blkbstr postnat oifname \""@ + wan
        + "\" meta mark and 0x40000000 == 0 tcp dport { "@ + ports + " } tcp flags fin,rst queue num "@
        + decimal(q as nat) + " bypass\n"@
}

/// Incoming rule for one protocol: the first replies of each flow.
pub open spec fn pre_rule(
    wan: Seq<char>,
    proto: Seq<char>,
    ports: Seq<char>,
    count: u16,
    q: u16,
) -> Seq<char> {
    "add rule inet blkbstr pre iifname \""@ + wan + "\" "@ + proto + " sport { "@ + ports
        + " } ct reply packets 1-"@ + decimal(count as nat) + " queue num "@ + decimal(q as nat)
        + " bypass\n"@
}

pub open spec fn pre_synack(wan: Seq<char>, ports: Seq<char>, q: u16) -> Seq<char> {
    "add rule inet blkbstr pre iifname \""@ + wan + "\" tcp sport { "@ + ports
        + " } tcp flags & (syn | ack) == (syn | ack) queue num "@ + decimal(q as nat) + " bypass\n"@
}

pub open spec fn pre_finrst(wan: Seq<char>, ports: Seq<char>, q: u16) -> Seq<char> {
    "add rule inet blkbstr pre iifname \""@ + wan + "\" tcp sport { "@ + ports
        + " } tcp flags fin,rst queue num "@ + decimal(q as nat) + " bypass\n"@
}

pub open spec fn table_reset() -> Seq<char> {
    "add table inet blkbstr\n"@ + "delete table inet blkbstr\n"@ + "add table inet blkbstr\n"@
}

/// The nftables script, as fed to `nft -f -`: a fresh table, the outgoing chain after NAT, the
/// incoming chain, and the chain that keeps the engine's own packets out of conntrack. A protocol
/// with no ports gets no rules.
pub open spec fn ruleset_text(s: InterceptSpecView) -> Seq<char> {
    let wan = s.wan_iface;
    let tcp = s.tcp_ports;
    let udp = s.udp_ports;
    let q = s.queue_num;
    table_reset()
        + "add chain inet blkbstr postnat { type filter hook postrouting priority srcnat + 1; }\n"@
        + (if udp.len() > 0 {
        postnat_rule(wan, "udp"@, udp, s.max_pkt_out, q)
    } else {
        Seq::empty()
    }) + (if tcp.len() > 0 {
        postnat_rule(wan, "tcp"@, tcp, s.max_pkt_out, q) + postnat_finrst(wan, tcp, q)
    } else {
        Seq::empty()
    }) + "add chain inet blkbstr pre { type filter hook prerouting priority filter; }\n"@ + (if udp.len()
        > 0 {
        pre_rule(wan, "udp"@, udp, s.max_pkt_in, q)
    } else {
        Seq::empty()
    }) + (if tcp.len() > 0 {
        pre_rule(wan, "tcp"@, tcp, s.max_pkt_in, q) + pre_synack(wan, tcp, q) + pre_finrst(
            wan,
            tcp,
            q,
        )
    } else {
        Seq::empty()
    }) + "add chain inet blkbstr predefrag { type filter hook output priority -401; }\n"@
        + "add rule inet blkbstr predefrag mark and 0x40000000 != 0x00000000 notrack\n"@
}

fn build_postnat_rule(wan: &str, proto: &str, ports: &str, count: u16, q: u16) -> (r: String)
    ensures
        r@ == postnat_rule(wan@, proto@, ports@, count, q),
{
    let mut s = "add rule inet blkbstr postnat oifname \"".to_owned();
    push_str(&mut s, wan);
    push_str(&mut s, "\" meta mark and 0x40000000 == 0 ");
    push_str(&mut s, proto);
    push_str(&mut s, " dport { ");
    push_str(&mut s, ports);
    push_str(&mut s, " } ct original packets 1-");
    push_decimal(&mut s, count as u64);
    push_str(&mut s, " queue num ");
    push_decimal(&mut s, q as u64);
    push_str(&mut s, " bypass\n");
    s
}

fn build_postnat_finrst(wan: &str, ports: &str, q: u16) -> (r: String)
    ensures
        r@ == postnat_finrst(wan@, ports@, q),
{
    let mut s = "add rule inet blkbstr postnat oifname \"".to_owned();
    push_str(&mut s, wan);
    push_str(&mut s, "\" meta mark and 0x40000000 == 0 tcp dport { ");
    push_str(&mut s, ports);
    push_str(&mut s, " } tcp flags fin,rst queue num ");
    push_decimal(&mut s, q as u64);
    push_str(&mut s, " bypass\n");
    s
}

fn build_pre_rule(wan: &str, proto: &str, ports: &str, count: u16, q: u16) -> (r: String)
    ensures
        r@ == pre_rule(wan@, proto@, ports@, count, q),
{
    let mut s = "add rule inet blkbstr pre iifname \"".to_owned();
    push_str(&mut s, wan);
    push_str(&mut s, "\" ");
    push_str(&mut s, proto);
    push_str(&mut s, " sport { ");
    push_str(&mut s, ports);
    push_str(&mut s, " } ct reply packets 1-");
    push_decimal(&mut s, count as u64);
    push_str(&mut s, " queue num ");
    push_decimal(&mut s, q as u64);
    push_str(&mut s, " bypass\n");
    s
}

fn build_pre_synack(wan: &str, ports: &str, q: u16) -> (r: String)
    ensures
        r@ == pre_synack(wan@, ports@, q),
{
    let mut s = "add rule inet blkbstr pre iifname \"".to_owned();
    push_str(&mut s, wan);
    push_str(&mut s, "\" tcp sport { ");
    push_str(&mut s, ports);
    // Unquoted: a quoted expression is parsed by `nft -f -` as a literal string.
    push_str(&mut s, " } tcp flags & (syn | ack) == (syn | ack) queue num ");
    push_decimal(&mut s, q as u64);
    push_str(&mut s, " bypass\n");
    s
}

fn build_pre_finrst(wan: &str, ports: &str, q: u16) -> (r: String)
    ensures
        r@ == pre_finrst(wan@, ports@, q),
{
    let mut s = "add rule inet blkbstr pre iifname \"".to_owned();
    push_str(&mut s, wan);
    push_str(&mut s, "\" tcp sport { ");
    push_str(&mut s, ports);
    push_str(&mut s, " } tcp flags fin,rst queue num ");
    push_decimal(&mut s, q as u64);
    push_str(&mut s, " bypass\n");
    s
}

/// The nftables script, as fed to `nft -f -`. Pure, so the exact ruleset can be tested and shown
/// to the user before anything is applied.
///
/// Follows the POSTNAT scheme from the zapret2 manual: outgoing traffic is intercepted after NAT
/// so packets already carry their final source address, and `notrack` on the engine's own packets
/// keeps NAT from dropping techniques that deliberately violate its expectations.
pub fn ruleset(spec: &InterceptSpec) -> (r: String)
    ensures
        r@ == ruleset_text(spec@),
{
    let wan = spec.wan_iface.as_str();
    let tcp = spec.tcp_ports.as_str();
    let udp = spec.udp_ports.as_str();
    let q = spec.queue_num;
    let ghost sv = spec@;

    // Idempotent: `add` creates the table if absent, `delete` then guarantees a clean slate even
    // if a previous run died without tearing down.
    let mut s = "add table inet blkbstr\n".to_owned();
    push_str(&mut s, "delete table inet blkbstr\n");
    push_str(&mut s, "add table inet blkbstr\n");
    assert(s@ =~= table_reset());
    push_str(
        &mut s,
        "add chain inet blkbstr postnat { type filter hook postrouting priority srcnat + 1; }\n",
    );
    let ghost a = s@;
    if !udp.is_empty() {
        push_str(&mut s, build_postnat_rule(wan, "udp", udp, spec.max_pkt_out, q).as_str());
    }
    let ghost b = s@;
    assert(b =~= a + (if sv.udp_ports.len() > 0 {
        postnat_rule(sv.wan_iface, "udp"@, sv.udp_ports, sv.max_pkt_out, q)
    } else {
        Seq::empty()
    }));
    if !tcp.is_empty() {
        push_str(&mut s, build_postnat_rule(wan, "tcp", tcp, spec.max_pkt_out, q).as_str());
        push_str(&mut s, build_postnat_finrst(wan, tcp, q).as_str());
    }
    let ghost c = s@;
    assert(c =~= b + (if sv.tcp_ports.len() > 0 {
        postnat_rule(sv.wan_iface, "tcp"@, sv.tcp_ports, sv.max_pkt_out, q) + postnat_finrst(
            sv.wan_iface,
            sv.tcp_ports,
            q,
        )
    } else {
        Seq::empty()
    }));
    push_str(&mut s, "add chain inet blkbstr pre { type filter hook prerouting priority filter; }\n");
    let ghost d = s@;
    if !udp.is_empty() {
        push_str(&mut s, build_pre_rule(wan, "udp", udp, spec.max_pkt_in, q).as_str());
    }
    let ghost e = s@;
    assert(e =~= d + (if sv.udp_ports.len() > 0 {
        pre_rule(sv.wan_iface, "udp"@, sv.udp_ports, sv.max_pkt_in, q)
    } else {
        Seq::empty()
    }));
    if !tcp.is_empty() {
        push_str(&mut s, build_pre_rule(wan, "tcp", tcp, spec.max_pkt_in, q).as_str());
        push_str(&mut s, build_pre_synack(wan, tcp, q).as_str());
        push_str(&mut s, build_pre_finrst(wan, tcp, q).as_str());
    }
    let ghost f = s@;
    assert(f =~= e + (if sv.tcp_ports.len() > 0 {
        pre_rule(sv.wan_iface, "tcp"@, sv.tcp_ports, sv.max_pkt_in, q) + pre_synack(
            sv.wan_iface,
            sv.tcp_ports,
            q,
        ) + pre_finrst(sv.wan_iface, sv.tcp_ports, q)
    } else {
        Seq::empty()
    }));
    // Packets the engine injects must skip conntrack entirely, or NAT rejects the ones whose
    // sequence numbers deliberately do not add up.
    push_str(
        &mut s,
        "add chain inet blkbstr predefrag { type filter hook output priority -401; }\n",
    );
    push_str(&mut s, "add rule inet blkbstr predefrag mark and 0x40000000 != 0x00000000 notrack\n");
    assert(s@ =~= ruleset_text(sv));
    s
}

// ---------------------------------------------------------------------------------------------
// The default route
// ---------------------------------------------------------------------------------------------

/// The first line that starts with `default`.
pub open spec fn first_default(ls: Seq<Seq<char>>) -> Option<Seq<char>>
    decreases ls.len(),
{
    if ls.len() == 0 {
        None
    } else if is_prefix("default"@, ls[0]) {
        Some(ls[0])
    } else {
        first_default(ls.skip(1))
    }
}

/// The word after the first `dev`, if there is one.
pub open spec fn word_after_dev(ws: Seq<Seq<char>>) -> Option<Seq<char>>
    decreases ws.len(),
{
    if ws.len() == 0 {
        None
    } else if ws[0] == "dev"@ {
        if ws.len() > 1 {
            Some(ws[1])
        } else {
            None
        }
    } else {
        word_after_dev(ws.skip(1))
    }
}

/// The interface of the default route in `ip route show default` output.
pub open spec fn default_iface(routes: Seq<char>) -> Option<Seq<char>> {
    match first_default(lines(routes)) {
        Some(line) => word_after_dev(words(line)),
        None => None,
    }
}

fn after_dev(ws: &Vec<String>) -> (r: Option<String>)
    ensures
        match r {
            Some(w) => word_after_dev(views(ws@)) == Some(w@),
            None => word_after_dev(views(ws@)) is None,
        },
{
    let n = ws.len();
    let mut i: usize = 0;
    assert(views(ws@).skip(0) =~= views(ws@));
    while i < n
        invariant
            n == ws@.len(),
            i <= n,
            word_after_dev(views(ws@)) == word_after_dev(views(ws@).skip(i as int)),
        decreases n - i,
    {
        let ghost rest = views(ws@).skip(i as int);
        assert(rest[0] == ws@[i as int]@);
        if str_eq(ws[i].as_str(), "dev") {
            if i + 1 < n {
                assert(rest[1] == ws@[i + 1]@);
                return Some(ws[i + 1].clone());
            }
            return None;
        }
        assert(rest.skip(1) =~= views(ws@).skip(i + 1));
        i = i + 1;
    }
    None
}

/// Parses `default via 192.168.1.1 dev wlan0 proto dhcp metric 600` down to `wlan0`.
pub fn parse_default_iface(routes: &str) -> (r: Option<String>)
    ensures
        match r {
            Some(w) => default_iface(routes@) == Some(w@),
            None => default_iface(routes@) is None,
        },
{
    let ls = lines_of(routes);
    let n = ls.len();
    let mut i: usize = 0;
    assert(views(ls@).skip(0) =~= views(ls@));
    while i < n
        invariant
            n == ls@.len(),
            i <= n,
            views(ls@) == lines(routes@),
            first_default(views(ls@)) == first_default(views(ls@).skip(i as int)),
        decreases n - i,
    {
        let ghost rest = views(ls@).skip(i as int);
        assert(rest[0] == ls@[i as int]@);
        if starts_with(ls[i].as_str(), "default") {
            let ws = words_of(ls[i].as_str());
            return after_dev(&ws);
        }
        assert(rest.skip(1) =~= views(ls@).skip(i + 1));
        i = i + 1;
    }
    None
}


// ---------------------------------------------------------------------------------------------
// The incoming chain matches the server's port
// ---------------------------------------------------------------------------------------------

/// How an incoming rule for `proto` starts: on the WAN interface, matching the server's port set
/// as the packet's source port, since replies come from the server's port to an ephemeral one.
pub open spec fn incoming_head(wan: Seq<char>, proto: Seq<char>, ports: Seq<char>) -> Seq<char> {
    "add rule inet blkbstr pre iifname \""@ + wan + "\" "@ + proto + " sport { "@ + ports + " } "@
}

/// The incoming rule that queues the first `count` replies of each `proto` flow from `ports`.
pub open spec fn incoming_queue_line(
    wan: Seq<char>,
    proto: Seq<char>,
    ports: Seq<char>,
    count: u16,
    q: u16,
) -> Seq<char> {
    incoming_head(wan, proto, ports) + "ct reply packets 1-"@ + decimal(count as nat)
        + " queue num "@ + decimal(q as nat) + " bypass"@
}

/// How an outgoing rule for `proto` starts: on the WAN interface, skipping the engine's own
/// packets, matching the server's port set as the packet's destination port.
pub open spec fn outgoing_head(wan: Seq<char>, proto: Seq<char>, ports: Seq<char>) -> Seq<char> {
    "add rule inet blkbstr postnat oifname \""@ + wan + "\" meta mark and 0x40000000 == 0 "@ + proto
        + " dport { "@ + ports + " } "@
}

/// The outgoing rule that queues the first `count` packets of each `proto` flow to `ports`.
pub open spec fn outgoing_queue_line(
    wan: Seq<char>,
    proto: Seq<char>,
    ports: Seq<char>,
    count: u16,
    q: u16,
) -> Seq<char> {
    outgoing_head(wan, proto, ports) + "ct original packets 1-"@ + decimal(count as nat)
        + " queue num "@ + decimal(q as nat) + " bypass"@
}

spec fn nl_free(x: Seq<char>) -> bool {
    !x.contains('\n')
}

/// A line of the script that, if it is a rule of the incoming chain, starts as an incoming rule
/// for a protocol that has ports.
spec fn incoming_ok(l: Seq<char>, s: InterceptSpecView) -> bool {
    is_prefix("add rule inet blkbstr pre "@, l) ==> (s.tcp_ports.len() > 0 && is_prefix(
        incoming_head(s.wan_iface, "tcp"@, s.tcp_ports),
        l,
    )) || (s.udp_ports.len() > 0 && is_prefix(incoming_head(s.wan_iface, "udp"@, s.udp_ports), l))
}

/// A line of the script that, if it is a rule of the outgoing chain, starts as an outgoing rule
/// for a protocol that has ports.
spec fn outgoing_ok(l: Seq<char>, s: InterceptSpecView) -> bool {
    is_prefix("add rule inet blkbstr postnat "@, l) ==> (s.tcp_ports.len() > 0 && is_prefix(
        outgoing_head(s.wan_iface, "tcp"@, s.tcp_ports),
        l,
    )) || (s.udp_ports.len() > 0 && is_prefix(outgoing_head(s.wan_iface, "udp"@, s.udp_ports), l))
}

#[verifier::opaque]
spec fn line_ok(l: Seq<char>, s: InterceptSpecView) -> bool {
    nl_free(l) && l.len() > 0 && l.last() != '\r' && incoming_ok(l, s) && outgoing_ok(l, s)
}

spec fn lines_ok(ls: Seq<Seq<char>>, s: InterceptSpecView) -> bool {
    forall|i: int| 0 <= i < ls.len() ==> line_ok(#[trigger] ls[i], s)
}

/// Lines, each followed by a newline.
spec fn script_of(ls: Seq<Seq<char>>) -> Seq<char> {
    seq_join(ls, "\n"@) + "\n"@
}

proof fn lemma_script_push(ls: Seq<Seq<char>>, x: Seq<char>)
    requires
        ls.len() > 0,
    ensures
        script_of(ls.push(x)) == script_of(ls) + (x + "\n"@),
{
    assert(ls.push(x).drop_last() =~= ls);
    assert(seq_join(ls.push(x), "\n"@) == seq_join(ls, "\n"@) + "\n"@ + x);
    assert(script_of(ls.push(x)) =~= script_of(ls) + (x + "\n"@));
}

proof fn lemma_lines_ok_push(ls: Seq<Seq<char>>, x: Seq<char>, s: InterceptSpecView)
    requires
        lines_ok(ls, s),
        line_ok(x, s),
    ensures
        lines_ok(ls.push(x), s),
{
    assert forall|i: int| 0 <= i < ls.push(x).len() implies line_ok(#[trigger] ls.push(x)[i], s) by {
        if i < ls.len() {
            assert(ls.push(x)[i] == ls[i]);
        }
    }
}

proof fn lemma_free(a: Seq<char>, b: Seq<char>)
    requires
        nl_free(a),
        nl_free(b),
    ensures
        nl_free(a + b),
{
    lemma_contains_concat(a, b, '\n');
}

proof fn lemma_decimal_free(n: nat)
    ensures
        nl_free(decimal(n)),
{
    lemma_decimal_digits(n);
    if decimal(n).contains('\n') {
        let k = choose|k: int| 0 <= k < decimal(n).len() && decimal(n)[k] == '\n';
        assert(is_digit(decimal(n)[k]));
    }
}

/// A line whose `j`-th character differs from the incoming-rule prefix's is no incoming rule.
proof fn lemma_not_incoming(l: Seq<char>, j: int)
    requires
        0 <= j < 26,
        j < l.len(),
        l[j] != "add rule inet blkbstr pre "@[j],
    ensures
        !is_prefix("add rule inet blkbstr pre "@, l),
{
    reveal_strlit("add rule inet blkbstr pre ");
    if is_prefix("add rule inet blkbstr pre "@, l) {
        assert(l.take(26)[j] == l[j]);
    }
}

/// A line whose `j`-th character differs from the outgoing-rule prefix's is no outgoing rule.
proof fn lemma_not_outgoing(l: Seq<char>, j: int)
    requires
        0 <= j < 30,
        j < l.len(),
        l[j] != "add rule inet blkbstr postnat "@[j],
    ensures
        !is_prefix("add rule inet blkbstr postnat "@, l),
{
    reveal_strlit("add rule inet blkbstr postnat ");
    if is_prefix("add rule inet blkbstr postnat "@, l) {
        assert(l.take(30)[j] == l[j]);
    }
}

spec fn table_line() -> Seq<char> {
    "add table inet blkbstr"@
}

spec fn drop_line() -> Seq<char> {
    "delete table inet blkbstr"@
}

spec fn postnat_chain_line() -> Seq<char> {
    "add chain inet blkbstr postnat { type filter hook postrouting priority srcnat + 1; }"@
}

spec fn pre_chain_line() -> Seq<char> {
    "add chain inet blkbstr pre { type filter hook prerouting priority filter; }"@
}

spec fn predefrag_chain_line() -> Seq<char> {
    "add chain inet blkbstr predefrag { type filter hook output priority -401; }"@
}

spec fn predefrag_rule_line() -> Seq<char> {
    "add rule inet blkbstr predefrag mark and 0x40000000 != 0x00000000 notrack"@
}

proof fn lemma_fixed_lines(s: InterceptSpecView)
    ensures
        table_reset() == script_of(seq![table_line(), drop_line(), table_line()]),
        "add chain inet blkbstr postnat { type filter hook postrouting priority srcnat + 1; }\n"@
            == postnat_chain_line() + "\n"@,
        "add chain inet blkbstr pre { type filter hook prerouting priority filter; }\n"@
            == pre_chain_line() + "\n"@,
        "add chain inet blkbstr predefrag { type filter hook output priority -401; }\n"@
            == predefrag_chain_line() + "\n"@,
        "add rule inet blkbstr predefrag mark and 0x40000000 != 0x00000000 notrack\n"@
            == predefrag_rule_line() + "\n"@,
        line_ok(table_line(), s),
        line_ok(drop_line(), s),
        line_ok(postnat_chain_line(), s),
        line_ok(pre_chain_line(), s),
        line_ok(predefrag_chain_line(), s),
        line_ok(predefrag_rule_line(), s),
{
    reveal(line_ok);
    reveal_strlit("\n");
    reveal_strlit("add table inet blkbstr");
    reveal_strlit("delete table inet blkbstr");
    reveal_strlit("add table inet blkbstr\n");
    reveal_strlit("delete table inet blkbstr\n");
    reveal_strlit("add chain inet blkbstr postnat { type filter hook postrouting priority srcnat + 1; }");
    reveal_strlit("add chain inet blkbstr postnat { type filter hook postrouting priority srcnat + 1; }\n");
    reveal_strlit("add chain inet blkbstr pre { type filter hook prerouting priority filter; }");
    reveal_strlit("add chain inet blkbstr pre { type filter hook prerouting priority filter; }\n");
    reveal_strlit("add chain inet blkbstr predefrag { type filter hook output priority -401; }");
    reveal_strlit("add chain inet blkbstr predefrag { type filter hook output priority -401; }\n");
    reveal_strlit("add rule inet blkbstr predefrag mark and 0x40000000 != 0x00000000 notrack");
    reveal_strlit("add rule inet blkbstr predefrag mark and 0x40000000 != 0x00000000 notrack\n");
    reveal_strlit("add rule inet blkbstr pre ");
    let three = seq![table_line(), drop_line(), table_line()];
    assert(three.drop_last() =~= seq![table_line(), drop_line()]);
    assert(seq![table_line(), drop_line()].drop_last() =~= seq![table_line()]);
    let two = seq![table_line(), drop_line()];
    assert(seq_join(seq![table_line()], "\n"@) == table_line());
    assert(seq_join(two, "\n"@) == table_line() + "\n"@ + drop_line());
    assert(seq_join(three, "\n"@) == seq_join(two, "\n"@) + "\n"@ + table_line());
    assert(script_of(three) =~= table_reset());
    lemma_not_incoming(table_line(), 4);
    lemma_not_incoming(drop_line(), 0);
    lemma_not_incoming(postnat_chain_line(), 4);
    lemma_not_incoming(pre_chain_line(), 4);
    lemma_not_incoming(predefrag_chain_line(), 4);
    lemma_not_incoming(predefrag_rule_line(), 25);
    reveal_strlit("add rule inet blkbstr postnat ");
    lemma_not_outgoing(table_line(), 4);
    lemma_not_outgoing(drop_line(), 0);
    lemma_not_outgoing(postnat_chain_line(), 4);
    lemma_not_outgoing(pre_chain_line(), 4);
    lemma_not_outgoing(predefrag_chain_line(), 4);
    lemma_not_outgoing(predefrag_rule_line(), 23);
    assert(table_line().last() == table_line()[table_line().len() - 1]);
    assert(drop_line().last() == drop_line()[drop_line().len() - 1]);
    assert(postnat_chain_line().last() == postnat_chain_line()[postnat_chain_line().len() - 1]);
    assert(pre_chain_line().last() == pre_chain_line()[pre_chain_line().len() - 1]);
    assert(predefrag_chain_line().last() == predefrag_chain_line()[predefrag_chain_line().len() - 1]);
    assert(predefrag_rule_line().last() == predefrag_rule_line()[predefrag_rule_line().len() - 1]);
}

/// The outgoing rule that queues every FIN and RST to the TCP ports, so the engine retires flows.
pub open spec fn outgoing_finrst_line(wan: Seq<char>, ports: Seq<char>, q: u16) -> Seq<char> {
    outgoing_head(wan, "tcp"@, ports) + "tcp flags fin,rst queue num "@ + decimal(q as nat)
        + " bypass"@
}

/// The incoming rule that queues the server's SYN-ACK from the TCP ports.
pub open spec fn synack_line(wan: Seq<char>, ports: Seq<char>, q: u16) -> Seq<char> {
    incoming_head(wan, "tcp"@, ports) + "tcp flags & (syn | ack) == (syn | ack) queue num "@ + decimal(
        q as nat,
    ) + " bypass"@
}

/// The incoming rule that queues every FIN and RST from the TCP ports.
pub open spec fn finrst_line(wan: Seq<char>, ports: Seq<char>, q: u16) -> Seq<char> {
    incoming_head(wan, "tcp"@, ports) + "tcp flags fin,rst queue num "@ + decimal(q as nat)
        + " bypass"@
}

proof fn lemma_ends_in_bypass(x: Seq<char>)
    ensures
        (x + " bypass"@).len() > 0,
        (x + " bypass"@).last() != '\r',
{
    reveal_strlit(" bypass");
    let l = x + " bypass"@;
    assert(l.last() == l[l.len() - 1]);
    assert(l[l.len() - 1] == " bypass"@[6]);
}

proof fn lemma_headed(head: Seq<char>, tail: Seq<char>)
    ensures
        is_prefix(head, head + tail),
{
    assert((head + tail).take(head.len() as int) =~= head);
}

proof fn lemma_head_free(wan: Seq<char>, proto: Seq<char>, ports: Seq<char>)
    requires
        nl_free(wan),
        nl_free(proto),
        nl_free(ports),
    ensures
        nl_free(incoming_head(wan, proto, ports)),
        incoming_head(wan, proto, ports)[23] == 'r',
        incoming_head(wan, proto, ports).len() > 30,
{
    reveal_strlit("add rule inet blkbstr pre iifname \"");
    reveal_strlit("\" ");
    reveal_strlit(" sport { ");
    reveal_strlit(" } ");
    let l0: Seq<char> = "add rule inet blkbstr pre iifname \""@;
    lemma_free(l0, wan);
    lemma_free(l0 + wan, "\" "@);
    lemma_free(l0 + wan + "\" "@, proto);
    lemma_free(l0 + wan + "\" "@ + proto, " sport { "@);
    lemma_free(l0 + wan + "\" "@ + proto + " sport { "@, ports);
    lemma_free(l0 + wan + "\" "@ + proto + " sport { "@ + ports, " } "@);
}

proof fn lemma_tail_free(head: Seq<char>, lit: Seq<char>, n: nat)
    requires
        nl_free(head),
        nl_free(lit),
    ensures
        nl_free(head + lit + decimal(n) + " bypass"@),
        (head + lit + decimal(n) + " bypass"@).len() > 0,
        (head + lit + decimal(n) + " bypass"@).last() != '\r',
{
    reveal_strlit(" bypass");
    lemma_decimal_free(n);
    lemma_free(head, lit);
    lemma_free(head + lit, decimal(n));
    lemma_free(head + lit + decimal(n), " bypass"@);
    lemma_ends_in_bypass(head + lit + decimal(n));
}

proof fn lemma_bypass_split()
    ensures
        " bypass\n"@ == " bypass"@ + "\n"@,
{
    reveal_strlit("\n");
    reveal_strlit(" bypass");
    reveal_strlit(" bypass\n");
    assert(" bypass\n"@ =~= " bypass"@ + "\n"@);
}

proof fn lemma_queue_line(s: InterceptSpecView, proto: Seq<char>, ports: Seq<char>, count: u16)
    requires
        nl_free(s.wan_iface),
        nl_free(proto),
        nl_free(ports),
        ports.len() > 0,
        (proto == "tcp"@ && ports == s.tcp_ports) || (proto == "udp"@ && ports == s.udp_ports),
    ensures
        pre_rule(s.wan_iface, proto, ports, count, s.queue_num) == incoming_queue_line(
            s.wan_iface,
            proto,
            ports,
            count,
            s.queue_num,
        ) + "\n"@,
        line_ok(incoming_queue_line(s.wan_iface, proto, ports, count, s.queue_num), s),
{
    reveal(line_ok);
    let wan = s.wan_iface;
    let q = s.queue_num;
    let head = incoming_head(wan, proto, ports);
    lemma_head_free(wan, proto, ports);
    lemma_bypass_split();
    assert(" } ct reply packets 1-"@ == " } "@ + "ct reply packets 1-"@) by {
        reveal_strlit(" } ct reply packets 1-");
        reveal_strlit(" } ");
        reveal_strlit("ct reply packets 1-");
        assert(" } ct reply packets 1-"@ =~= " } "@ + "ct reply packets 1-"@);
    }
    let mid = "ct reply packets 1-"@ + decimal(count as nat) + " queue num "@;
    let x = incoming_queue_line(wan, proto, ports, count, q);
    assert(x =~= head + mid + decimal(q as nat) + " bypass"@);
    assert(pre_rule(wan, proto, ports, count, q) =~= x + "\n"@);
    lemma_headed(head, mid + decimal(q as nat) + " bypass"@);
    assert(x =~= head + (mid + decimal(q as nat) + " bypass"@));
    assert(nl_free(mid)) by {
        reveal_strlit("ct reply packets 1-");
        reveal_strlit(" queue num ");
        lemma_decimal_free(count as nat);
        lemma_free("ct reply packets 1-"@, decimal(count as nat));
        lemma_free("ct reply packets 1-"@ + decimal(count as nat), " queue num "@);
    }
    lemma_tail_free(head, mid, q as nat);
    assert(x[23] == head[23]);
    reveal_strlit("add rule inet blkbstr postnat ");
    lemma_not_outgoing(x, 23);
}

proof fn lemma_out_head_free(wan: Seq<char>, proto: Seq<char>, ports: Seq<char>)
    requires
        nl_free(wan),
        nl_free(proto),
        nl_free(ports),
    ensures
        nl_free(outgoing_head(wan, proto, ports)),
        outgoing_head(wan, proto, ports)[23] == 'o',
        outgoing_head(wan, proto, ports).len() > 30,
{
    reveal_strlit("add rule inet blkbstr postnat oifname \"");
    reveal_strlit("\" meta mark and 0x40000000 == 0 ");
    reveal_strlit(" dport { ");
    reveal_strlit(" } ");
    let l0: Seq<char> = "add rule inet blkbstr postnat oifname \""@;
    lemma_free(l0, wan);
    lemma_free(l0 + wan, "\" meta mark and 0x40000000 == 0 "@);
    lemma_free(l0 + wan + "\" meta mark and 0x40000000 == 0 "@, proto);
    lemma_free(l0 + wan + "\" meta mark and 0x40000000 == 0 "@ + proto, " dport { "@);
    lemma_free(l0 + wan + "\" meta mark and 0x40000000 == 0 "@ + proto + " dport { "@, ports);
    lemma_free(
        l0 + wan + "\" meta mark and 0x40000000 == 0 "@ + proto + " dport { "@ + ports,
        " } "@,
    );
}

proof fn lemma_outgoing_queue_line(s: InterceptSpecView, proto: Seq<char>, ports: Seq<char>)
    requires
        nl_free(s.wan_iface),
        nl_free(proto),
        nl_free(ports),
        ports.len() > 0,
        (proto == "tcp"@ && ports == s.tcp_ports) || (proto == "udp"@ && ports == s.udp_ports),
    ensures
        postnat_rule(s.wan_iface, proto, ports, s.max_pkt_out, s.queue_num) == outgoing_queue_line(
            s.wan_iface,
            proto,
            ports,
            s.max_pkt_out,
            s.queue_num,
        ) + "\n"@,
        line_ok(outgoing_queue_line(s.wan_iface, proto, ports, s.max_pkt_out, s.queue_num), s),
{
    reveal(line_ok);
    let wan = s.wan_iface;
    let q = s.queue_num;
    let count = s.max_pkt_out;
    let head = outgoing_head(wan, proto, ports);
    lemma_out_head_free(wan, proto, ports);
    lemma_bypass_split();
    assert(" } ct original packets 1-"@ == " } "@ + "ct original packets 1-"@) by {
        reveal_strlit(" } ct original packets 1-");
        reveal_strlit(" } ");
        reveal_strlit("ct original packets 1-");
        assert(" } ct original packets 1-"@ =~= " } "@ + "ct original packets 1-"@);
    }
    let mid = "ct original packets 1-"@ + decimal(count as nat) + " queue num "@;
    let x = outgoing_queue_line(wan, proto, ports, count, q);
    assert(postnat_rule(wan, proto, ports, count, q) =~= x + "\n"@);
    assert(x =~= head + mid + decimal(q as nat) + " bypass"@);
    lemma_headed(head, mid + decimal(q as nat) + " bypass"@);
    assert(x =~= head + (mid + decimal(q as nat) + " bypass"@));
    assert(nl_free(mid)) by {
        reveal_strlit("ct original packets 1-");
        reveal_strlit(" queue num ");
        lemma_decimal_free(count as nat);
        lemma_free("ct original packets 1-"@, decimal(count as nat));
        lemma_free("ct original packets 1-"@ + decimal(count as nat), " queue num "@);
    }
    lemma_tail_free(head, mid, q as nat);
    assert(x[23] == head[23]);
    reveal_strlit("add rule inet blkbstr pre ");
    lemma_not_incoming(x, 23);
}

proof fn lemma_outgoing_finrst_line(s: InterceptSpecView)
    requires
        nl_free(s.wan_iface),
        nl_free(s.tcp_ports),
        s.tcp_ports.len() > 0,
    ensures
        postnat_finrst(s.wan_iface, s.tcp_ports, s.queue_num) == outgoing_finrst_line(
            s.wan_iface,
            s.tcp_ports,
            s.queue_num,
        ) + "\n"@,
        line_ok(outgoing_finrst_line(s.wan_iface, s.tcp_ports, s.queue_num), s),
{
    reveal(line_ok);
    let wan = s.wan_iface;
    let ports = s.tcp_ports;
    let q = s.queue_num;
    assert(nl_free("tcp"@)) by {
        reveal_strlit("tcp");
    }
    let head = outgoing_head(wan, "tcp"@, ports);
    lemma_out_head_free(wan, "tcp"@, ports);
    lemma_bypass_split();
    let lit = "tcp flags fin,rst queue num "@;
    assert("\" meta mark and 0x40000000 == 0 tcp dport { "@ == "\" meta mark and 0x40000000 == 0 "@
        + "tcp"@ + " dport { "@) by {
        reveal_strlit("\" meta mark and 0x40000000 == 0 tcp dport { ");
        reveal_strlit("\" meta mark and 0x40000000 == 0 ");
        reveal_strlit("tcp");
        reveal_strlit(" dport { ");
        assert("\" meta mark and 0x40000000 == 0 tcp dport { "@ =~= "\" meta mark and 0x40000000 == 0 "@
            + "tcp"@ + " dport { "@);
    }
    assert(" } tcp flags fin,rst queue num "@ == " } "@ + lit) by {
        reveal_strlit(" } tcp flags fin,rst queue num ");
        reveal_strlit(" } ");
        reveal_strlit("tcp flags fin,rst queue num ");
        assert(" } tcp flags fin,rst queue num "@ =~= " } "@ + lit);
    }
    let z = outgoing_finrst_line(wan, ports, q);
    assert(postnat_finrst(wan, ports, q) =~= z + "\n"@);
    lemma_headed(head, lit + decimal(q as nat) + " bypass"@);
    assert(z =~= head + (lit + decimal(q as nat) + " bypass"@));
    assert(nl_free(lit)) by {
        reveal_strlit("tcp flags fin,rst queue num ");
    }
    lemma_tail_free(head, lit, q as nat);
    assert(z[23] == head[23]);
    reveal_strlit("add rule inet blkbstr pre ");
    lemma_not_incoming(z, 23);
}

proof fn lemma_synack_line(s: InterceptSpecView)
    requires
        nl_free(s.wan_iface),
        nl_free(s.tcp_ports),
        s.tcp_ports.len() > 0,
    ensures
        pre_synack(s.wan_iface, s.tcp_ports, s.queue_num) == synack_line(
            s.wan_iface,
            s.tcp_ports,
            s.queue_num,
        ) + "\n"@,
        line_ok(synack_line(s.wan_iface, s.tcp_ports, s.queue_num), s),
{
    reveal(line_ok);
    let wan = s.wan_iface;
    let ports = s.tcp_ports;
    let q = s.queue_num;
    assert(nl_free("tcp"@)) by {
        reveal_strlit("tcp");
    }
    let head = incoming_head(wan, "tcp"@, ports);
    lemma_head_free(wan, "tcp"@, ports);
    lemma_bypass_split();
    let lit = "tcp flags & (syn | ack) == (syn | ack) queue num "@;
    assert("\" tcp sport { "@ == "\" "@ + "tcp"@ + " sport { "@) by {
        reveal_strlit("\" tcp sport { ");
        reveal_strlit("\" ");
        reveal_strlit("tcp");
        reveal_strlit(" sport { ");
        assert("\" tcp sport { "@ =~= "\" "@ + "tcp"@ + " sport { "@);
    }
    assert(" } tcp flags & (syn | ack) == (syn | ack) queue num "@ == " } "@ + lit) by {
        reveal_strlit(" } tcp flags & (syn | ack) == (syn | ack) queue num ");
        reveal_strlit(" } ");
        reveal_strlit("tcp flags & (syn | ack) == (syn | ack) queue num ");
        assert(" } tcp flags & (syn | ack) == (syn | ack) queue num "@ =~= " } "@ + lit);
    }
    let y = synack_line(wan, ports, q);
    assert(pre_synack(wan, ports, q) =~= y + "\n"@);
    lemma_headed(head, lit + decimal(q as nat) + " bypass"@);
    assert(y =~= head + (lit + decimal(q as nat) + " bypass"@));
    assert(nl_free(lit)) by {
        reveal_strlit("tcp flags & (syn | ack) == (syn | ack) queue num ");
    }
    lemma_tail_free(head, lit, q as nat);
    assert(y[23] == head[23]);
    reveal_strlit("add rule inet blkbstr postnat ");
    lemma_not_outgoing(y, 23);
}

proof fn lemma_finrst_line(s: InterceptSpecView)
    requires
        nl_free(s.wan_iface),
        nl_free(s.tcp_ports),
        s.tcp_ports.len() > 0,
    ensures
        pre_finrst(s.wan_iface, s.tcp_ports, s.queue_num) == finrst_line(
            s.wan_iface,
            s.tcp_ports,
            s.queue_num,
        ) + "\n"@,
        line_ok(finrst_line(s.wan_iface, s.tcp_ports, s.queue_num), s),
{
    reveal(line_ok);
    let wan = s.wan_iface;
    let ports = s.tcp_ports;
    let q = s.queue_num;
    assert(nl_free("tcp"@)) by {
        reveal_strlit("tcp");
    }
    let head = incoming_head(wan, "tcp"@, ports);
    lemma_head_free(wan, "tcp"@, ports);
    lemma_bypass_split();
    let lit = "tcp flags fin,rst queue num "@;
    assert("\" tcp sport { "@ == "\" "@ + "tcp"@ + " sport { "@) by {
        reveal_strlit("\" tcp sport { ");
        reveal_strlit("\" ");
        reveal_strlit("tcp");
        reveal_strlit(" sport { ");
        assert("\" tcp sport { "@ =~= "\" "@ + "tcp"@ + " sport { "@);
    }
    assert(" } tcp flags fin,rst queue num "@ == " } "@ + lit) by {
        reveal_strlit(" } tcp flags fin,rst queue num ");
        reveal_strlit(" } ");
        reveal_strlit("tcp flags fin,rst queue num ");
        assert(" } tcp flags fin,rst queue num "@ =~= " } "@ + lit);
    }
    let z = finrst_line(wan, ports, q);
    assert(pre_finrst(wan, ports, q) =~= z + "\n"@);
    lemma_headed(head, lit + decimal(q as nat) + " bypass"@);
    assert(z =~= head + (lit + decimal(q as nat) + " bypass"@));
    assert(nl_free(lit)) by {
        reveal_strlit("tcp flags fin,rst queue num ");
    }
    lemma_tail_free(head, lit, q as nat);
    assert(z[23] == head[23]);
    reveal_strlit("add rule inet blkbstr postnat ");
    lemma_not_outgoing(z, 23);
}

proof fn lemma_script_lines(ls: Seq<Seq<char>>, s: InterceptSpecView)
    requires
        ls.len() > 0,
        lines_ok(ls, s),
    ensures
        lines(script_of(ls)) == ls,
{
    reveal(line_ok);
    assert forall|i: int| 0 <= i < ls.len() implies !(#[trigger] ls[i]).contains('\n') by {
        assert(line_ok(ls[i], s));
    }
    lemma_lines_of_joined_stripped(ls);
    let stripped = ls.map_values(|l: Seq<char>| strip_cr(l));
    assert forall|i: int| 0 <= i < ls.len() implies stripped[i] == ls[i] by {
        assert(line_ok(ls[i], s));
    }
    assert(stripped =~= ls);
}

spec fn outgoing_text(s: InterceptSpecView) -> Seq<char> {
    table_reset()
        + "add chain inet blkbstr postnat { type filter hook postrouting priority srcnat + 1; }\n"@
        + (if s.udp_ports.len() > 0 {
        postnat_rule(s.wan_iface, "udp"@, s.udp_ports, s.max_pkt_out, s.queue_num)
    } else {
        Seq::empty()
    }) + (if s.tcp_ports.len() > 0 {
        postnat_rule(s.wan_iface, "tcp"@, s.tcp_ports, s.max_pkt_out, s.queue_num) + postnat_finrst(
            s.wan_iface,
            s.tcp_ports,
            s.queue_num,
        )
    } else {
        Seq::empty()
    })
}

spec fn incoming_text(s: InterceptSpecView) -> Seq<char> {
    "add chain inet blkbstr pre { type filter hook prerouting priority filter; }\n"@ + (if s.udp_ports.len()
        > 0 {
        pre_rule(s.wan_iface, "udp"@, s.udp_ports, s.max_pkt_in, s.queue_num)
    } else {
        Seq::empty()
    }) + (if s.tcp_ports.len() > 0 {
        pre_rule(s.wan_iface, "tcp"@, s.tcp_ports, s.max_pkt_in, s.queue_num) + pre_synack(
            s.wan_iface,
            s.tcp_ports,
            s.queue_num,
        ) + pre_finrst(s.wan_iface, s.tcp_ports, s.queue_num)
    } else {
        Seq::empty()
    })
}

spec fn closing_text() -> Seq<char> {
    "add chain inet blkbstr predefrag { type filter hook output priority -401; }\n"@
        + "add rule inet blkbstr predefrag mark and 0x40000000 != 0x00000000 notrack\n"@
}

proof fn lemma_outgoing_lines(s: InterceptSpecView) -> (r: (Seq<Seq<char>>, int, int))
    requires
        nl_free(s.wan_iface),
        nl_free(s.tcp_ports),
        nl_free(s.udp_ports),
    ensures
        r.0.len() > 0,
        lines_ok(r.0, s),
        script_of(r.0) == outgoing_text(s),
        s.udp_ports.len() > 0 ==> 0 <= r.1 < r.0.len() && r.0[r.1] == outgoing_queue_line(
            s.wan_iface,
            "udp"@,
            s.udp_ports,
            s.max_pkt_out,
            s.queue_num,
        ),
        s.tcp_ports.len() > 0 ==> 0 <= r.2 && r.2 + 1 < r.0.len() && r.0[r.2] == outgoing_queue_line(
            s.wan_iface,
            "tcp"@,
            s.tcp_ports,
            s.max_pkt_out,
            s.queue_num,
        ) && r.0[r.2 + 1] == outgoing_finrst_line(s.wan_iface, s.tcp_ports, s.queue_num),
{
    let wan = s.wan_iface;
    let tcp = s.tcp_ports;
    let udp = s.udp_ports;
    let q = s.queue_num;
    assert(nl_free("tcp"@) && nl_free("udp"@)) by {
        reveal_strlit("tcp");
        reveal_strlit("udp");
    }
    lemma_fixed_lines(s);
    let l1 = seq![table_line()];
    assert(lines_ok(l1, s));
    lemma_lines_ok_push(l1, drop_line(), s);
    lemma_lines_ok_push(l1.push(drop_line()), table_line(), s);
    let mut ls = seq![table_line(), drop_line(), table_line()];
    assert(ls =~= l1.push(drop_line()).push(table_line()));
    lemma_script_push(ls, postnat_chain_line());
    lemma_lines_ok_push(ls, postnat_chain_line(), s);
    ls = ls.push(postnat_chain_line());
    let mut text = table_reset()
        + "add chain inet blkbstr postnat { type filter hook postrouting priority srcnat + 1; }\n"@;
    assert(script_of(ls) =~= text);
    let mut at_udp: int = 0;
    if udp.len() > 0 {
        lemma_outgoing_queue_line(s, "udp"@, udp);
        let x = outgoing_queue_line(wan, "udp"@, udp, s.max_pkt_out, q);
        lemma_script_push(ls, x);
        lemma_lines_ok_push(ls, x, s);
        at_udp = ls.len() as int;
        ls = ls.push(x);
        text = text + postnat_rule(wan, "udp"@, udp, s.max_pkt_out, q);
    } else {
        assert(text =~= text + Seq::<char>::empty());
    }
    assert(script_of(ls) =~= text);
    let mid = ls;
    let mut at_tcp: int = 0;
    if tcp.len() > 0 {
        lemma_outgoing_queue_line(s, "tcp"@, tcp);
        let x = outgoing_queue_line(wan, "tcp"@, tcp, s.max_pkt_out, q);
        lemma_script_push(ls, x);
        lemma_lines_ok_push(ls, x, s);
        at_tcp = ls.len() as int;
        ls = ls.push(x);
        lemma_outgoing_finrst_line(s);
        let y = outgoing_finrst_line(wan, tcp, q);
        lemma_script_push(ls, y);
        lemma_lines_ok_push(ls, y, s);
        ls = ls.push(y);
        assert(script_of(ls) =~= text + (postnat_rule(wan, "tcp"@, tcp, s.max_pkt_out, q)
            + postnat_finrst(wan, tcp, q)));
        assert(ls[at_tcp] == x);
        assert(ls[at_tcp + 1] == y);
        if udp.len() > 0 {
            assert(ls[at_udp] == mid[at_udp]);
        }
    } else {
        assert(script_of(ls) =~= text + Seq::<char>::empty());
    }
    assert(script_of(ls) =~= outgoing_text(s));
    (ls, at_udp, at_tcp)
}

#[verifier::rlimit(50)]
proof fn lemma_incoming_lines(s: InterceptSpecView, ls0: Seq<Seq<char>>) -> (r: (
    Seq<Seq<char>>,
    int,
    int,
))
    requires
        nl_free(s.wan_iface),
        nl_free(s.tcp_ports),
        nl_free(s.udp_ports),
        ls0.len() > 0,
        lines_ok(ls0, s),
    ensures
        r.0.len() > 0,
        lines_ok(r.0, s),
        script_of(r.0) == script_of(ls0) + incoming_text(s),
        r.0.len() >= ls0.len(),
        forall|i: int| 0 <= i < ls0.len() ==> r.0[i] == ls0[i],
        s.udp_ports.len() > 0 ==> 0 <= r.1 < r.0.len() && r.0[r.1] == incoming_queue_line(
            s.wan_iface,
            "udp"@,
            s.udp_ports,
            s.max_pkt_in,
            s.queue_num,
        ),
        s.tcp_ports.len() > 0 ==> 0 <= r.2 && r.2 + 2 < r.0.len() && r.0[r.2] == incoming_queue_line(
            s.wan_iface,
            "tcp"@,
            s.tcp_ports,
            s.max_pkt_in,
            s.queue_num,
        ) && r.0[r.2 + 1] == synack_line(s.wan_iface, s.tcp_ports, s.queue_num) && r.0[r.2 + 2]
            == finrst_line(s.wan_iface, s.tcp_ports, s.queue_num),
{
    let wan = s.wan_iface;
    let tcp = s.tcp_ports;
    let udp = s.udp_ports;
    let q = s.queue_num;
    assert(nl_free("tcp"@) && nl_free("udp"@)) by {
        reveal_strlit("tcp");
        reveal_strlit("udp");
    }
    lemma_fixed_lines(s);
    let mut ls = ls0;
    lemma_script_push(ls, pre_chain_line());
    lemma_lines_ok_push(ls, pre_chain_line(), s);
    ls = ls.push(pre_chain_line());
    let text = script_of(ls0)
        + "add chain inet blkbstr pre { type filter hook prerouting priority filter; }\n"@;
    assert(script_of(ls) =~= text);
    let mut at_udp: int = 0;
    let mut udp_text: Seq<char> = Seq::empty();
    if udp.len() > 0 {
        lemma_queue_line(s, "udp"@, udp, s.max_pkt_in);
        let x = incoming_queue_line(wan, "udp"@, udp, s.max_pkt_in, q);
        lemma_script_push(ls, x);
        lemma_lines_ok_push(ls, x, s);
        at_udp = ls.len() as int;
        ls = ls.push(x);
        udp_text = pre_rule(wan, "udp"@, udp, s.max_pkt_in, q);
    }
    assert(script_of(ls) =~= text + udp_text);
    let mid = ls;
    let mut at_tcp: int = 0;
    let mut tcp_text: Seq<char> = Seq::empty();
    if tcp.len() > 0 {
        lemma_queue_line(s, "tcp"@, tcp, s.max_pkt_in);
        let x = incoming_queue_line(wan, "tcp"@, tcp, s.max_pkt_in, q);
        lemma_script_push(ls, x);
        lemma_lines_ok_push(ls, x, s);
        at_tcp = ls.len() as int;
        ls = ls.push(x);
        lemma_synack_line(s);
        let y = synack_line(wan, tcp, q);
        lemma_script_push(ls, y);
        lemma_lines_ok_push(ls, y, s);
        ls = ls.push(y);
        lemma_finrst_line(s);
        let z = finrst_line(wan, tcp, q);
        lemma_script_push(ls, z);
        lemma_lines_ok_push(ls, z, s);
        ls = ls.push(z);
        tcp_text = pre_rule(wan, "tcp"@, tcp, s.max_pkt_in, q) + pre_synack(wan, tcp, q) + pre_finrst(
            wan,
            tcp,
            q,
        );
        assert(ls[at_tcp] == x);
        assert(ls[at_tcp + 1] == y);
        assert(ls[at_tcp + 2] == z);
        if udp.len() > 0 {
            assert(ls[at_udp] == mid[at_udp]);
        }
    }
    assert(script_of(ls) =~= text + udp_text + tcp_text);
    assert(script_of(ls) =~= script_of(ls0) + incoming_text(s));
    assert(ls.take(ls0.len() as int) =~= ls0);
    assert forall|i: int| 0 <= i < ls0.len() implies ls[i] == ls0[i] by {
        assert(ls.take(ls0.len() as int)[i] == ls[i]);
    }
    (ls, at_udp, at_tcp)
}

/// Each chain matches the server's port on the side where it stands: read line by line, every
/// rule of the incoming `pre` chain starts `iifname "<wan>" <proto> sport { <ports> } ` and every
/// rule of the outgoing `postnat` chain starts `oifname "<wan>" meta mark and 0x40000000 == 0
/// <proto> dport { <ports> } `, each for a protocol that has ports; and for each protocol with
/// ports the script queues the first `max_pkt_out` packets of each flow to those ports and the
/// first `max_pkt_in` replies from them; for TCP it also queues the server's SYN-ACK and every
/// FIN and RST in both directions. Interface and port text is taken as it stands, so this
/// holds when none of it holds a line break.
pub proof fn rules_match_the_server_port(s: InterceptSpecView)
    requires
        !s.wan_iface.contains('\n'),
        !s.tcp_ports.contains('\n'),
        !s.udp_ports.contains('\n'),
    ensures
        forall|i: int|
            0 <= i < lines(ruleset_text(s)).len() && is_prefix(
                "add rule inet blkbstr pre "@,
                #[trigger] lines(ruleset_text(s))[i],
            ) ==> (s.tcp_ports.len() > 0 && is_prefix(
                incoming_head(s.wan_iface, "tcp"@, s.tcp_ports),
                lines(ruleset_text(s))[i],
            )) || (s.udp_ports.len() > 0 && is_prefix(
                incoming_head(s.wan_iface, "udp"@, s.udp_ports),
                lines(ruleset_text(s))[i],
            )),
        forall|i: int|
            0 <= i < lines(ruleset_text(s)).len() && is_prefix(
                "add rule inet blkbstr postnat "@,
                #[trigger] lines(ruleset_text(s))[i],
            ) ==> (s.tcp_ports.len() > 0 && is_prefix(
                outgoing_head(s.wan_iface, "tcp"@, s.tcp_ports),
                lines(ruleset_text(s))[i],
            )) || (s.udp_ports.len() > 0 && is_prefix(
                outgoing_head(s.wan_iface, "udp"@, s.udp_ports),
                lines(ruleset_text(s))[i],
            )),
        s.tcp_ports.len() > 0 ==> lines(ruleset_text(s)).contains(
            incoming_queue_line(s.wan_iface, "tcp"@, s.tcp_ports, s.max_pkt_in, s.queue_num),
        ),
        s.udp_ports.len() > 0 ==> lines(ruleset_text(s)).contains(
            incoming_queue_line(s.wan_iface, "udp"@, s.udp_ports, s.max_pkt_in, s.queue_num),
        ),
        s.tcp_ports.len() > 0 ==> lines(ruleset_text(s)).contains(
            outgoing_queue_line(s.wan_iface, "tcp"@, s.tcp_ports, s.max_pkt_out, s.queue_num),
        ),
        s.udp_ports.len() > 0 ==> lines(ruleset_text(s)).contains(
            outgoing_queue_line(s.wan_iface, "udp"@, s.udp_ports, s.max_pkt_out, s.queue_num),
        ),
        s.tcp_ports.len() > 0 ==> lines(ruleset_text(s)).contains(
            synack_line(s.wan_iface, s.tcp_ports, s.queue_num),
        ) && lines(ruleset_text(s)).contains(finrst_line(s.wan_iface, s.tcp_ports, s.queue_num))
            && lines(ruleset_text(s)).contains(
            outgoing_finrst_line(s.wan_iface, s.tcp_ports, s.queue_num),
        ),
{
    reveal(line_ok);
    let (out, out_udp, out_tcp) = lemma_outgoing_lines(s);
    let (mid, at_udp, at_tcp) = lemma_incoming_lines(s, out);
    lemma_fixed_lines(s);
    lemma_script_push(mid, predefrag_chain_line());
    lemma_lines_ok_push(mid, predefrag_chain_line(), s);
    let m1 = mid.push(predefrag_chain_line());
    lemma_script_push(m1, predefrag_rule_line());
    lemma_lines_ok_push(m1, predefrag_rule_line(), s);
    let ls = m1.push(predefrag_rule_line());
    assert(script_of(ls) =~= outgoing_text(s) + incoming_text(s) + closing_text());
    assert(ruleset_text(s) =~= outgoing_text(s) + incoming_text(s) + closing_text());
    lemma_script_lines(ls, s);
    assert(lines(ruleset_text(s)) == ls);
    assert forall|i: int| 0 <= i < ls.len() implies #[trigger] line_ok(ls[i], s) by {}
    if s.udp_ports.len() > 0 {
        assert(ls[at_udp] == mid[at_udp]);
        assert(ls[out_udp] == out[out_udp]);
    }
    if s.tcp_ports.len() > 0 {
        assert(ls[at_tcp] == mid[at_tcp]);
        assert(ls[at_tcp + 1] == mid[at_tcp + 1]);
        assert(ls[at_tcp + 2] == mid[at_tcp + 2]);
        assert(ls[out_tcp] == out[out_tcp]);
        assert(ls[out_tcp + 1] == out[out_tcp + 1]);
    }
}

} // verus!
