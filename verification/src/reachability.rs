//! Whether a site is reachable, and if not, what stopped it.
//!
//! This is onboarding's "check" step, and later the oracle auto-configuration measures against:
//! apply a strategy, run this again, keep the strategy if the verdicts improved.
//!
//! Everything is done over plain TCP with no TLS library. The question is not "can this connection
//! be completed" but "does the far end answer at all once a hostname has been named", and a
//! handshake that gets as far as any TLS record coming back has already answered it.
//!
//! The sockets belong to the caller. What is decided here: which hostnames may be sent, which
//! resolved address is worth trying, the exact bytes of the hello, and what each way an exchange
//! can end means.

use crate::config::opt_view;
use crate::text::{copy_str, decimal, push_decimal, push_str};
use std::collections::hash_map::{DefaultHasher, RandomState};
use std::hash::{BuildHasher, Hasher};
use vstd::prelude::*;
use vstd::string::*;

verus! {

/// Reserved by IANA for documentation, serves TLS, and is of no interest to any censor. If this
/// one fails the network is broken, which is a different problem with a different fix.
pub const CONTROL_HOST: &'static str = "example.com";

/// The only port the check speaks on. A candidate that filters some other port cannot change what
/// this measures, so the walk has nothing to learn by trying it.
pub const PORT: u16 = 443;

/// Long enough for a slow mobile link, short enough that a silently dropped connection does not
/// hold the whole check open. In milliseconds.
pub const DEFAULT_TIMEOUT_MS: u64 = 5000;

/// Used while walking candidates. A host that a strategy has unblocked answers in a fraction of a
/// second; the rest of the wait is spent proving that a silent drop is still a silent drop.
pub const TRIAL_TIMEOUT_MS: u64 = 2000;

pub open spec fn default_host_list() -> Seq<Seq<char>> {
    seq![
        "www.youtube.com"@,
        "discord.com"@,
        "x.com"@,
        "www.instagram.com"@,
        "www.facebook.com"@,
        "rutracker.org"@,
    ]
}

/// Sites commonly interfered with, plus enough variety that one company's outage is not mistaken
/// for censorship. Editable by the caller; this is only the default.
pub fn default_hosts() -> (r: Vec<&'static str>)
    ensures
        r@.map_values(|h: &str| h@) == default_host_list(),
{
    let r = vec![
        "www.youtube.com",
        "discord.com",
        "x.com",
        "www.instagram.com",
        "www.facebook.com",
        "rutracker.org",
    ];
    assert(r@.map_values(|h: &str| h@) =~= default_host_list());
    r
}

#[derive(Debug, Clone, Copy, PartialEq, Eq, Structural)]
pub enum Verdict {
    /// The server answered after being told which host we wanted.
    Fine,
    /// The name did not resolve at all.
    DnsFailed,
    /// It resolved, but to an address nothing can be hosted on.
    DnsPoisoned,
    /// The address resolved and the connection could not be opened.
    TcpBlocked,
    /// The connection opened and then died once the hostname was on the wire.
    TlsReset,
    /// The connection opened and nothing ever came back.
    TlsSilent,
    /// The hostname itself is unusable, so nothing was sent.
    BadHost,
}

impl Verdict {
    pub fn blocked(self) -> (r: bool)
        ensures
            r == (self != Verdict::Fine),
    {
        !matches!(self, Verdict::Fine)
    }
}

#[derive(Debug, Clone)]
pub struct SiteResult {
    pub host: String,
    pub verdict: Verdict,
    /// The address tried, or why the verdict is what it is. Shown verbatim; this is the line that
    /// makes a bug report worth reading.
    pub detail: Option<String>,
    pub elapsed_ms: u64,
}

#[derive(Debug, Clone)]
pub struct Report {
    /// False when even the control host failed — the network is down, not filtered. Every other
    /// verdict in the report is meaningless when this is false.
    pub network_ok: bool,
    pub control: SiteResult,
    pub sites: Vec<SiteResult>,
}

pub open spec fn verdicts(sites: Seq<SiteResult>) -> Seq<Verdict> {
    sites.map_values(|s: SiteResult| s.verdict)
}

/// Counts the blocked verdicts.
pub open spec fn blocked_in(vs: Seq<Verdict>) -> nat
    decreases vs.len(),
{
    if vs.len() == 0 {
        0
    } else {
        blocked_in(vs.drop_last()) + if vs.last() != Verdict::Fine {
            1nat
        } else {
            0nat
        }
    }
}

proof fn lemma_blocked_in_len(vs: Seq<Verdict>)
    ensures
        blocked_in(vs) <= vs.len(),
    decreases vs.len(),
{
    if vs.len() > 0 {
        lemma_blocked_in_len(vs.drop_last());
    }
}

impl Report {
    /// The report for a control check and the sites' checks. The network is up exactly when the
    /// control host was reached.
    pub fn new(control: SiteResult, sites: Vec<SiteResult>) -> (r: Report)
        ensures
            r.network_ok == (control.verdict == Verdict::Fine),
            r.control == control,
            r.sites == sites,
    {
        Report { network_ok: control.verdict == Verdict::Fine, control, sites }
    }

    pub fn blocked_count(&self) -> (r: usize)
        ensures
            r == blocked_in(verdicts(self.sites@)),
    {
        let ghost vs = verdicts(self.sites@);
        let n = self.sites.len();
        let mut count: usize = 0;
        let mut i: usize = 0;
        assert(vs.take(0) =~= Seq::<Verdict>::empty());
        while i < n
            invariant
                n == self.sites@.len(),
                vs == verdicts(self.sites@),
                i <= n,
                count == blocked_in(vs.take(i as int)),
            decreases n - i,
        {
            proof {
                assert(vs.take(i + 1).drop_last() =~= vs.take(i as int));
                assert(vs.take(i + 1).last() == self.sites@[i as int].verdict);
                lemma_blocked_in_len(vs.take(i as int));
            }
            if self.sites[i].verdict.blocked() {
                count = count + 1;
            }
            i = i + 1;
        }
        assert(vs.take(n as int) =~= vs);
        count
    }
}

pub open spec fn panicked_detail() -> Seq<char> {
    "the check itself panicked"@
}

/// The result for a host whose check never finished.
pub fn failed(host: &str) -> (r: SiteResult)
    ensures
        r.host@ == host@,
        r.verdict == Verdict::BadHost,
        r.detail matches Some(d) && d@ == panicked_detail(),
        r.elapsed_ms == 0,
{
    SiteResult {
        host: copy_str(host),
        verdict: Verdict::BadHost,
        detail: Some("the check itself panicked".to_owned()),
        elapsed_ms: 0,
    }
}

// ---------------------------------------------------------------------------------------------
// Hostnames
// ---------------------------------------------------------------------------------------------

pub open spec fn host_byte_ok(b: u8) -> bool {
    (0x30 <= b <= 0x39) || (0x41 <= b <= 0x5a) || (0x61 <= b <= 0x7a) || b == 0x2e || b == 0x2d
}

pub open spec fn length_message() -> Seq<char> {
    "a hostname is 1 to 253 characters"@
}

pub open spec fn charset_message() -> Seq<char> {
    "only letters, digits, dots and hyphens; punycode an international name first"@
}

/// Why a hostname cannot be sent, if it cannot: it must be ASCII and within the DNS length limit,
/// because it reaches a `u16` length field in the SNI extension and a system resolver, and both
/// arrive from whatever the user typed.
pub open spec fn hostname_error(bytes: Seq<u8>) -> Option<Seq<char>> {
    if bytes.len() == 0 || bytes.len() > 253 {
        Some(length_message())
    } else if !(forall|i: int| 0 <= i < bytes.len() ==> host_byte_ok(#[trigger] bytes[i])) {
        Some(charset_message())
    } else {
        None
    }
}

pub fn check_hostname(host: &str) -> (r: Result<(), &'static str>)
    ensures
        match r {
            Ok(()) => hostname_error(host.spec_bytes()) is None,
            Err(m) => hostname_error(host.spec_bytes()) == Some(m@),
        },
{
    let bytes = host.as_bytes();
    let n = bytes.len();
    if n == 0 || n > 253 {
        return Err("a hostname is 1 to 253 characters");
    }
    let mut i: usize = 0;
    while i < n
        invariant
            n == bytes@.len(),
            1 <= n <= 253,
            bytes@ == host.spec_bytes(),
            i <= n,
            forall|j: int| 0 <= j < i ==> host_byte_ok(#[trigger] bytes@[j]),
        decreases n - i,
    {
        let b = bytes[i];
        let ok = (0x30 <= b && b <= 0x39) || (0x41 <= b && b <= 0x5a) || (0x61 <= b && b <= 0x7a)
            || b == 0x2e || b == 0x2d;
        if !ok {
            assert(!host_byte_ok(bytes@[i as int]));
            assert(hostname_error(host.spec_bytes()) == Some(charset_message()));
            return Err(
                "only letters, digits, dots and hyphens; punycode an international name first",
            );
        }
        i = i + 1;
    }
    Ok(())
}

// ---------------------------------------------------------------------------------------------
// Addresses
// ---------------------------------------------------------------------------------------------

/// A resolved address: IPv4 by its octets, IPv6 as its 128-bit value.
#[derive(Debug, Clone, Copy, PartialEq, Eq, Structural)]
pub enum Ip {
    V4(u8, u8, u8, u8),
    V6(u128),
}

/// Nothing real is served from these, so a name that resolves to one has been answered by
/// something other than its owner: loopback, unspecified, private, link-local or broadcast for
/// IPv4; loopback or unspecified for IPv6.
pub open spec fn sinkhole(ip: Ip) -> bool {
    match ip {
        Ip::V4(a, b, c, d) => {
            ||| a == 127
            ||| (a == 0 && b == 0 && c == 0 && d == 0)
            ||| a == 10
            ||| (a == 172 && 16 <= b <= 31)
            ||| (a == 192 && b == 168)
            ||| (a == 169 && b == 254)
            ||| (a == 255 && b == 255 && c == 255 && d == 255)
        },
        Ip::V6(v) => v == 1 || v == 0,
    }
}

pub fn is_sinkhole(ip: Ip) -> (r: bool)
    ensures
        r == sinkhole(ip),
{
    match ip {
        Ip::V4(a, b, c, d) => {
            a == 127 || (a == 0 && b == 0 && c == 0 && d == 0) || a == 10 || (a == 172 && 16 <= b
                && b <= 31) || (a == 192 && b == 168) || (a == 169 && b == 254) || (a == 255 && b
                == 255 && c == 255 && d == 255)
        },
        Ip::V6(v) => v == 1 || v == 0,
    }
}

/// Which resolved address to try.
#[derive(Debug, Clone, Copy, PartialEq, Eq, Structural)]
pub enum Resolution {
    /// The address at this position is the first worth trying.
    Use(usize),
    /// Every address is a sinkhole; this is the first of them.
    Poisoned(Ip),
    /// The resolver returned nothing.
    Nothing,
}

pub open spec fn first_real(addrs: Seq<Ip>) -> int
    decreases addrs.len(),
{
    if addrs.len() == 0 {
        -1
    } else if !sinkhole(addrs[0]) {
        0
    } else {
        let rest = first_real(addrs.skip(1));
        if rest < 0 {
            -1
        } else {
            rest + 1
        }
    }
}

proof fn lemma_first_real(addrs: Seq<Ip>)
    ensures
        -1 <= first_real(addrs) < addrs.len(),
        first_real(addrs) >= 0 ==> !sinkhole(addrs[first_real(addrs)]) && forall|j: int|
            0 <= j < first_real(addrs) ==> sinkhole(#[trigger] addrs[j]),
        first_real(addrs) < 0 ==> forall|j: int| 0 <= j < addrs.len() ==> sinkhole(#[trigger] addrs[j]),
    decreases addrs.len(),
{
    if addrs.len() > 0 {
        lemma_first_real(addrs.skip(1));
        assert forall|j: int| 1 <= j < addrs.len() implies addrs[j] == addrs.skip(1)[j - 1] by {}
    }
}

/// The resolution the addresses come to: the first that is not a sinkhole, else the first of
/// them as evidence of poisoning, else nothing.
pub open spec fn resolution_of(addrs: Seq<Ip>) -> Resolution {
    if first_real(addrs) >= 0 {
        Resolution::Use(first_real(addrs) as usize)
    } else if addrs.len() > 0 {
        Resolution::Poisoned(addrs[0])
    } else {
        Resolution::Nothing
    }
}

pub fn choose_address(addrs: &Vec<Ip>) -> (r: Resolution)
    ensures
        r == resolution_of(addrs@),
{
    proof {
        lemma_first_real(addrs@);
    }
    let n = addrs.len();
    let mut i: usize = 0;
    while i < n
        invariant
            n == addrs@.len(),
            i <= n,
            forall|j: int| 0 <= j < i ==> sinkhole(#[trigger] addrs@[j]),
            -1 <= first_real(addrs@) < n,
            first_real(addrs@) >= 0 ==> !sinkhole(addrs@[first_real(addrs@)]) && forall|j: int|
                0 <= j < first_real(addrs@) ==> sinkhole(#[trigger] addrs@[j]),
            first_real(addrs@) < 0 ==> forall|j: int|
                0 <= j < addrs@.len() ==> sinkhole(#[trigger] addrs@[j]),
        decreases n - i,
    {
        if !is_sinkhole(addrs[i]) {
            assert(first_real(addrs@) == i);
            return Resolution::Use(i);
        }
        i = i + 1;
    }
    if n > 0 {
        Resolution::Poisoned(addrs[0])
    } else {
        Resolution::Nothing
    }
}

// ---------------------------------------------------------------------------------------------
// What an exchange means
// ---------------------------------------------------------------------------------------------

/// How the exchange with one address ended, as the caller's socket saw it.
pub enum Exchange {
    /// The connection could not be opened, for this reason.
    ConnectFailed(String),
    /// The hello could not be sent, for this reason.
    SendFailed(String),
    /// The far end closed the connection without sending anything.
    Closed,
    /// The far end sent `n` bytes, the first of them `first`.
    Replied { n: usize, first: u8 },
    /// Nothing came back within the timeout.
    TimedOut,
    /// Reading failed otherwise, for this reason.
    ReadFailed(String),
}

pub enum ExchangeView {
    ConnectFailed(Seq<char>),
    SendFailed(Seq<char>),
    Closed,
    Replied { n: usize, first: u8 },
    TimedOut,
    ReadFailed(Seq<char>),
}

impl View for Exchange {
    type V = ExchangeView;

    open spec fn view(&self) -> ExchangeView {
        match self {
            Exchange::ConnectFailed(e) => ExchangeView::ConnectFailed(e@),
            Exchange::SendFailed(e) => ExchangeView::SendFailed(e@),
            Exchange::Closed => ExchangeView::Closed,
            Exchange::Replied { n, first } => ExchangeView::Replied { n: *n, first: *first },
            Exchange::TimedOut => ExchangeView::TimedOut,
            Exchange::ReadFailed(e) => ExchangeView::ReadFailed(e@),
        }
    }
}

/// The verdict and its detail for an exchange with the address written `ip`, given how the
/// timeout reads. A handshake record (0x16) or an alert (0x15) means something on the far end
/// parsed the hello and replied, which is what "reachable" means here.
pub open spec fn verdict_of(ip: Seq<char>, x: ExchangeView, timeout: Seq<char>) -> (Verdict, Seq<char>) {
    match x {
        ExchangeView::ConnectFailed(e) => (Verdict::TcpBlocked, ip + ": "@ + e),
        ExchangeView::SendFailed(e) => (Verdict::TlsReset, "sending hello: "@ + e),
        ExchangeView::Closed => (Verdict::TlsReset, ip + ": closed after the hello"@),
        ExchangeView::Replied { n, first } => if n == 0 {
            (Verdict::TlsReset, ip + ": closed after the hello"@)
        } else if first == 0x16 {
            (Verdict::Fine, ip)
        } else if first == 0x15 {
            (Verdict::Fine, ip + ": answered with a TLS alert"@)
        } else {
            (Verdict::TlsReset, ip + ": "@ + decimal(n as nat) + " bytes, not a TLS record"@)
        },
        ExchangeView::TimedOut => (Verdict::TlsSilent, ip + ": no answer in "@ + timeout),
        ExchangeView::ReadFailed(e) => (Verdict::TlsReset, ip + ": "@ + e),
    }
}

fn join2(a: &str, b: &str) -> (r: String)
    ensures
        r@ == a@ + b@,
{
    let mut r = copy_str(a);
    push_str(&mut r, b);
    r
}

fn join3(a: &str, b: &str, c: &str) -> (r: String)
    ensures
        r@ == a@ + b@ + c@,
{
    let mut r = copy_str(a);
    push_str(&mut r, b);
    push_str(&mut r, c);
    r
}

/// The verdict on a host that is not a usable hostname: nothing is resolved or sent, and the
/// reason is the detail. `None` for a usable hostname, which goes on to be resolved.
pub fn refused_host(host: &str) -> (r: Option<(Verdict, Option<String>)>)
    ensures
        match hostname_error(host.spec_bytes()) {
            None => r is None,
            Some(why) => r matches Some((v, Some(d))) && v == Verdict::BadHost && d@ == why,
        },
{
    match check_hostname(host) {
        Ok(()) => None,
        Err(why) => Some((Verdict::BadHost, Some(copy_str(why)))),
    }
}

/// What a resolution leads to: the position of the address to try, or, when there is none worth
/// trying, the verdict. `first` is the first resolved address as text, the detail of a poisoned
/// answer.
pub fn resolved(res: Resolution, first: &str) -> (r: Result<usize, (Verdict, Option<String>)>)
    ensures
        match res {
            Resolution::Use(i) => r == Ok::<usize, (Verdict, Option<String>)>(i),
            Resolution::Poisoned(_) => r matches Err((v, Some(d))) && v == Verdict::DnsPoisoned && d@
                == first@,
            Resolution::Nothing => r matches Err((v, Some(d))) && v == Verdict::DnsFailed && d@
                == "no addresses returned"@,
        },
{
    match res {
        Resolution::Use(i) => Ok(i),
        Resolution::Poisoned(_) => Err((Verdict::DnsPoisoned, Some(copy_str(first)))),
        Resolution::Nothing => Err((Verdict::DnsFailed, Some("no addresses returned".to_owned()))),
    }
}

pub fn verdict_for(ip: &str, exchange: Exchange, timeout: &str) -> (r: (Verdict, Option<String>))
    ensures
        r.0 == verdict_of(ip@, exchange@, timeout@).0,
        opt_view(r.1) == Some(verdict_of(ip@, exchange@, timeout@).1),
{
    let ghost x = exchange@;
    match exchange {
        Exchange::ConnectFailed(e) => {
            assert(x == ExchangeView::ConnectFailed(e@));
            let d = join3(ip, ": ", e.as_str());
            assert(d@ == verdict_of(ip@, x, timeout@).1);
            (Verdict::TcpBlocked, Some(d))
        },
        Exchange::SendFailed(e) => (Verdict::TlsReset, Some(join2("sending hello: ", e.as_str()))),
        Exchange::Closed => (Verdict::TlsReset, Some(join2(ip, ": closed after the hello"))),
        Exchange::Replied { n, first } => {
            if n == 0 {
                (Verdict::TlsReset, Some(join2(ip, ": closed after the hello")))
            } else if first == 0x16 {
                (Verdict::Fine, Some(copy_str(ip)))
            } else if first == 0x15 {
                (Verdict::Fine, Some(join2(ip, ": answered with a TLS alert")))
            } else {
                let mut d = join2(ip, ": ");
                push_decimal(&mut d, n as u64);
                push_str(&mut d, " bytes, not a TLS record");
                (Verdict::TlsReset, Some(d))
            }
        },
        Exchange::TimedOut => (Verdict::TlsSilent, Some(join3(ip, ": no answer in ", timeout))),
        Exchange::ReadFailed(e) => (Verdict::TlsReset, Some(join3(ip, ": ", e.as_str()))),
    }
}

// ---------------------------------------------------------------------------------------------
// The hello
// ---------------------------------------------------------------------------------------------

/// `n` as a big-endian `u16`: its low 16 bits, high byte first.
pub open spec fn be16(n: nat) -> Seq<u8> {
    seq![((n / 256) % 256) as u8, (n % 256) as u8]
}

/// The low 24 bits of `n`, big-endian.
pub open spec fn be24(n: nat) -> Seq<u8> {
    seq![((n / 65536) % 256) as u8, ((n / 256) % 256) as u8, (n % 256) as u8]
}

/// A TLS extension: its type, the length of its body, the body.
pub open spec fn extension(kind: nat, body: Seq<u8>) -> Seq<u8> {
    be16(kind) + be16(body.len()) + body
}

/// server_name: the extension the whole check exists to send. One entry, of type host_name.
pub open spec fn sni_extension(name: Seq<u8>) -> Seq<u8> {
    extension(0, be16(name.len() + 3) + seq![0u8] + be16(name.len()) + name)
}

/// server_name, then supported_groups (x25519, secp256r1), ec_point_formats (uncompressed) and
/// signature_algorithms, enough that a server has something to pick.
pub open spec fn hello_extensions(name: Seq<u8>) -> Seq<u8> {
    sni_extension(name) + extension(0x0a, be16(4) + seq![0x00u8, 0x1d, 0x00, 0x17]) + extension(
        0x0b,
        seq![1u8, 0],
    ) + extension(0x0d, be16(6) + seq![0x04u8, 0x01, 0x04, 0x03, 0x08, 0x04])
}

/// TLS 1.2, the random, no session id, four cipher suites, null compression, the extensions.
pub open spec fn hello_body(name: Seq<u8>, random: Seq<u8>) -> Seq<u8> {
    seq![0x03u8, 0x03] + random + seq![0u8] + be16(8) + seq![
        0x13u8,
        0x01,
        0x13,
        0x02,
        0xc0,
        0x2b,
        0xc0,
        0x2f,
    ] + seq![1u8, 0] + be16(hello_extensions(name).len()) + hello_extensions(name)
}

pub open spec fn hello_handshake(name: Seq<u8>, random: Seq<u8>) -> Seq<u8> {
    seq![0x01u8] + be24(hello_body(name, random).len()) + hello_body(name, random)
}

/// A TLS 1.2 ClientHello naming `name` in the SNI extension, in one handshake record.
pub open spec fn hello_record(name: Seq<u8>, random: Seq<u8>) -> Seq<u8> {
    seq![0x16u8, 0x03, 0x01] + be16(hello_handshake(name, random).len()) + hello_handshake(
        name,
        random,
    )
}

fn push_be16(out: &mut Vec<u8>, n: usize)
    ensures
        final(out)@ == old(out)@ + be16(n as nat),
{
    out.push(((n / 256) % 256) as u8);
    out.push((n % 256) as u8);
    assert(out@ =~= old(out)@ + be16(n as nat));
}

fn push_be24(out: &mut Vec<u8>, n: usize)
    ensures
        final(out)@ == old(out)@ + be24(n as nat),
{
    out.push(((n / 65536) % 256) as u8);
    out.push(((n / 256) % 256) as u8);
    out.push((n % 256) as u8);
    assert(out@ =~= old(out)@ + be24(n as nat));
}

fn append_bytes(out: &mut Vec<u8>, bytes: &[u8])
    ensures
        final(out)@ == old(out)@ + bytes@,
{
    out.extend_from_slice(bytes);
    assert(out@ =~= old(out)@ + bytes@);
}

fn extension_bytes(out: &mut Vec<u8>, kind: usize, body: &Vec<u8>)
    ensures
        final(out)@ == old(out)@ + extension(kind as nat, body@),
{
    push_be16(out, kind);
    push_be16(out, body.len());
    append_bytes(out, body.as_slice());
    assert(out@ =~= old(out)@ + extension(kind as nat, body@));
}

/// Lengths far below what memory can hold, so no length arithmetic can overflow.
pub open spec fn fits(n: nat) -> bool {
    n + 256 <= usize::MAX
}

/// The hello for `host` with `random` in its random field.
pub fn client_hello_with(host: &str, random: &Vec<u8>) -> (r: Vec<u8>)
    requires
        random@.len() == 32,
        fits(host.spec_bytes().len()),
    ensures
        r@ == hello_record(host.spec_bytes(), random@),
{
    let name = host.as_bytes();
    let ghost nm = host.spec_bytes();
    let mut sni: Vec<u8> = Vec::new();
    push_be16(&mut sni, name.len() + 3);
    sni.push(0);
    push_be16(&mut sni, name.len());
    append_bytes(&mut sni, name);
    assert(sni@ =~= be16(nm.len() + 3) + seq![0u8] + be16(nm.len()) + nm);
    let mut extensions: Vec<u8> = Vec::new();
    extension_bytes(&mut extensions, 0x0000, &sni);
    let groups = vec![0x00u8, 0x04, 0x00, 0x1d, 0x00, 0x17];
    assert(groups@ =~= be16(4) + seq![0x00u8, 0x1d, 0x00, 0x17]);
    extension_bytes(&mut extensions, 0x000a, &groups);
    let formats = vec![1u8, 0];
    assert(formats@ =~= seq![1u8, 0]);
    extension_bytes(&mut extensions, 0x000b, &formats);
    let algorithms = vec![0x00u8, 0x06, 0x04, 0x01, 0x04, 0x03, 0x08, 0x04];
    assert(algorithms@ =~= be16(6) + seq![0x04u8, 0x01, 0x04, 0x03, 0x08, 0x04]);
    extension_bytes(&mut extensions, 0x000d, &algorithms);
    assert(extensions@ =~= hello_extensions(nm));

    let mut body: Vec<u8> = Vec::new();
    body.push(0x03);
    body.push(0x03);
    append_bytes(&mut body, random.as_slice());
    body.push(0);
    push_be16(&mut body, 8);
    let suites = vec![0x13u8, 0x01, 0x13, 0x02, 0xc0, 0x2b, 0xc0, 0x2f];
    append_bytes(&mut body, suites.as_slice());
    body.push(1);
    body.push(0);
    push_be16(&mut body, extensions.len());
    append_bytes(&mut body, extensions.as_slice());
    assert(body@ =~= hello_body(nm, random@));

    let mut handshake: Vec<u8> = Vec::new();
    handshake.push(0x01);
    push_be24(&mut handshake, body.len());
    append_bytes(&mut handshake, body.as_slice());
    assert(handshake@ =~= hello_handshake(nm, random@));

    let mut record: Vec<u8> = Vec::new();
    record.push(0x16);
    record.push(0x03);
    record.push(0x01);
    push_be16(&mut record, handshake.len());
    append_bytes(&mut record, handshake.as_slice());
    assert(record@ =~= hello_record(nm, random@));
    record
}

/// `std::collections::hash_map::RandomState::new`: a hash builder keyed from the process's random
/// seed. Its keys are chance, so nothing is stated of it.
#[verifier::external_body]
fn random_state() -> RandomState {
    RandomState::new()
}

/// `BuildHasher::build_hasher` on a `RandomState`: a fresh hasher under the builder's keys. What
/// it will hash to depends on those keys, so nothing is stated of it.
#[verifier::external_body]
fn keyed_hasher(state: &RandomState) -> DefaultHasher {
    state.build_hasher()
}

/// `Hasher::write_u64`: feeds `i` to the hasher. The bytes it writes follow the machine's byte
/// order, so nothing is stated of the hasher afterwards.
#[verifier::external_body]
fn feed_u64(hasher: &mut DefaultHasher, i: u64) {
    hasher.write_u64(i);
}

/// A word of chance: `i` hashed under keys drawn afresh from the process's random seed.
fn random_word(i: u64) -> u64 {
    let state = random_state();
    let mut hasher = keyed_hasher(&state);
    feed_u64(&mut hasher, i);
    hasher.finish()
}

/// Not a security value: the handshake is never completed and no key is derived from it. It varies
/// only so that repeated checks do not look like one replayed packet to whatever is watching.
fn random_32() -> (r: Vec<u8>)
    ensures
        r@.len() == 32,
{
    let mut out: Vec<u8> = Vec::new();
    let mut i: u64 = 0;
    while i < 4
        invariant
            i <= 4,
            out@.len() == 8 * i,
        decreases 4 - i,
    {
        let word = random_word(i);
        let mut k: u64 = 0;
        while k < 8
            invariant
                k <= 8,
                i < 4,
                out@.len() == 8 * i + k,
            decreases 8 - k,
        {
            out.push(((word >> (8 * k)) & 0xff) as u8);
            k = k + 1;
        }
        i = i + 1;
    }
    out
}

/// A TLS 1.2 ClientHello naming `host` in the SNI extension, with a fresh random field.
///
/// Hand-built rather than pulled from a TLS crate because the whole point is to control exactly
/// what goes on the wire: this is the packet DPI inspects, and a library would be free to retry,
/// fall back, or reuse a session and turn a blocked site into a working one.
pub fn client_hello(host: &str) -> (r: Vec<u8>)
    requires
        fits(host.spec_bytes().len()),
    ensures
        exists|random: Seq<u8>|
            random.len() == 32 && r@ == #[trigger] hello_record(host.spec_bytes(), random),
{
    let random = random_32();
    client_hello_with(host, &random)
}

// ---------------------------------------------------------------------------------------------
// Reading a hello back, as a server would
// ---------------------------------------------------------------------------------------------

pub open spec fn u16_at(b: Seq<u8>, i: int) -> int {
    b[i] as int * 256 + b[i + 1] as int
}

pub open spec fn u24_at(b: Seq<u8>, i: int) -> int {
    b[i] as int * 65536 + b[i + 1] as int * 256 + b[i + 2] as int
}

/// The host name in the first server_name extension among `exts`, walking the extensions by
/// their length fields.
pub open spec fn sni_in(exts: Seq<u8>) -> Option<Seq<u8>>
    decreases exts.len(),
{
    if exts.len() < 4 {
        None
    } else {
        let len = u16_at(exts, 2);
        if 4 + len > exts.len() {
            None
        } else if u16_at(exts, 0) == 0 {
            let body = exts.subrange(4, 4 + len);
            if body.len() < 5 {
                None
            } else {
                let n = u16_at(body, 3);
                if 5 + n > body.len() {
                    None
                } else {
                    Some(body.subrange(5, 5 + n))
                }
            }
        } else {
            sni_in(exts.skip(4 + len))
        }
    }
}

/// What a server reads as the requested host: a handshake record whose length field covers the
/// rest, holding a ClientHello whose length field covers the rest, whose extensions block — past
/// version, random, session id, cipher suites and compression methods — ends exactly where the
/// hello does, and whose first server_name entry it returns.
pub open spec fn read_sni(hello: Seq<u8>) -> Option<Seq<u8>> {
    if hello.len() < 9 || hello[0] != 0x16 || u16_at(hello, 3) != hello.len() - 5 || hello[5] != 0x01
        || u24_at(hello, 6) != hello.len() - 9 {
        None
    } else {
        let body = hello.skip(9);
        let a = 34int;
        if body.len() <= a {
            None
        } else {
            let b = a + 1 + body[a] as int;
            if body.len() < b + 2 {
                None
            } else {
                let c = b + 2 + u16_at(body, b);
                if body.len() <= c {
                    None
                } else {
                    let d = c + 1 + body[c] as int;
                    if body.len() < d + 2 {
                        None
                    } else {
                        let e = u16_at(body, d);
                        if d + 2 + e != body.len() {
                            None
                        } else {
                            sni_in(body.subrange(d + 2, d + 2 + e))
                        }
                    }
                }
            }
        }
    }
}

proof fn lemma_be16(x: nat)
    requires
        x < 65536,
    ensures
        u16_at(be16(x), 0) == x,
{
    let hi = x / 256;
    let lo = x % 256;
    assert(hi < 256 && hi * 256 + lo == x) by (nonlinear_arith)
        requires
            x < 65536,
            hi == x / 256,
            lo == x % 256,
    ;
    assert(hi % 256 == hi);
}

proof fn lemma_be24(x: nat)
    requires
        x < 16777216,
    ensures
        u24_at(be24(x), 0) == x,
{
    let top = x / 65536;
    let mid = (x / 256) % 256;
    let lo = x % 256;
    assert(top < 256 && top * 65536 + mid * 256 + lo == x) by (nonlinear_arith)
        requires
            x < 16777216,
            top == x / 65536,
            mid == (x / 256) % 256,
            lo == x % 256,
    ;
    assert(top % 256 == top);
}

proof fn lemma_sni_in_extensions(name: Seq<u8>)
    requires
        name.len() + 5 < 65536,
    ensures
        sni_in(hello_extensions(name)) == Some(name),
{
    let n = name.len();
    let sni_body = be16(n + 3) + seq![0u8] + be16(n) + name;
    let sni = extension(0, sni_body);
    let ext = hello_extensions(name);
    let rest = ext.skip(sni.len() as int);
    assert(ext =~= sni + rest);
    assert(sni_body.len() == n + 5);
    lemma_be16(0);
    lemma_be16(sni_body.len());
    lemma_be16(n);
    assert(ext[0] == be16(0)[0] && ext[1] == be16(0)[1]);
    assert(ext[2] == be16(sni_body.len())[0] && ext[3] == be16(sni_body.len())[1]);
    assert(u16_at(ext, 2) == sni_body.len());
    assert(ext.subrange(4, 4 + sni_body.len() as int) =~= sni_body);
    assert(sni_body[3] == be16(n)[0] && sni_body[4] == be16(n)[1]);
    assert(sni_body.subrange(5, 5 + n as int) =~= name);
}

proof fn lemma_body_layout(name: Seq<u8>, random: Seq<u8>)
    requires
        random.len() == 32,
        hello_extensions(name).len() < 65536,
    ensures
        ({
            let body = hello_body(name, random);
            let ext = hello_extensions(name);
            &&& body.len() == 49 + ext.len()
            &&& body[34] == 0
            &&& u16_at(body, 35) == 8
            &&& body[45] == 1
            &&& u16_at(body, 47) == ext.len()
            &&& body.subrange(49, 49 + ext.len() as int) == ext
        }),
{
    let body = hello_body(name, random);
    let ext = hello_extensions(name);
    let head = body.take(49);
    assert(body =~= head + ext);
    lemma_be16(8);
    lemma_be16(ext.len());
    assert(body[35] == be16(8)[0] && body[36] == be16(8)[1]);
    assert(body[47] == be16(ext.len())[0] && body[48] == be16(ext.len())[1]);
    assert(body.subrange(49, 49 + ext.len() as int) =~= ext);
}

proof fn lemma_record_layout(name: Seq<u8>, random: Seq<u8>)
    requires
        hello_body(name, random).len() + 4 < 65536,
    ensures
        ({
            let rec = hello_record(name, random);
            let body = hello_body(name, random);
            &&& rec.len() == body.len() + 9
            &&& rec[0] == 0x16
            &&& u16_at(rec, 3) == rec.len() - 5
            &&& rec[5] == 0x01
            &&& u24_at(rec, 6) == rec.len() - 9
            &&& rec.skip(9) == body
        }),
{
    let rec = hello_record(name, random);
    let body = hello_body(name, random);
    let hs = hello_handshake(name, random);
    lemma_be16(hs.len());
    lemma_be24(body.len());
    assert(hs =~= seq![0x01u8] + be24(body.len()) + body);
    assert(rec[3] == be16(hs.len())[0] && rec[4] == be16(hs.len())[1]);
    assert(rec[6] == be24(body.len())[0] && rec[7] == be24(body.len())[1] && rec[8] == be24(
        body.len(),
    )[2]);
    assert(rec.skip(9) =~= body);
}

/// A server reading the hello finds the host name it was built for, whenever every length fits
/// its field.
pub proof fn the_hello_names_its_host(name: Seq<u8>, random: Seq<u8>)
    requires
        random.len() == 32,
        name.len() + 90 < 65536,
    ensures
        read_sni(hello_record(name, random)) == Some(name),
{
    let ext = hello_extensions(name);
    assert(ext.len() == name.len() + 37);
    lemma_body_layout(name, random);
    lemma_record_layout(name, random);
    lemma_sni_in_extensions(name);
}

/// Two hellos for one host differ only in their random field: the bytes around it, and so the
/// length, depend on the host alone.
pub proof fn hellos_for_one_host_differ_only_in_the_random(name: Seq<u8>, r1: Seq<u8>, r2: Seq<u8>)
    requires
        r1.len() == 32,
        r2.len() == 32,
    ensures
        hello_record(name, r1).len() == hello_record(name, r2).len(),
        hello_record(name, r1).take(11) == hello_record(name, r2).take(11),
        hello_record(name, r1).skip(43) == hello_record(name, r2).skip(43),
        hello_record(name, r1).subrange(11, 43) == r1,
{
    let b1 = hello_body(name, r1);
    let b2 = hello_body(name, r2);
    assert(b1.len() == b2.len());
    let rec1 = hello_record(name, r1);
    let rec2 = hello_record(name, r2);
    assert(rec1.take(11) =~= rec2.take(11));
    assert(rec1.skip(43) =~= rec2.skip(43));
    assert(rec1.subrange(11, 43) =~= r1);
}


/// Reachable means a TLS answer: a site is `Fine` exactly when the far end sent bytes whose first
/// is a TLS handshake (0x16) or alert (0x15) record. A connection that cannot be opened is
/// blocked at TCP; one that times out is silent; one that is refused, closed, reset, fails to
/// read, or answers with anything else after the hello is a reset, with the address and the
/// reason as the detail where there is one.
pub proof fn only_a_tls_answer_is_reachable(ip: Seq<char>, x: ExchangeView, timeout: Seq<char>)
    ensures
        verdict_of(ip, x, timeout).0 == Verdict::Fine <==> (x matches ExchangeView::Replied { n, first }
            && n > 0 && (first == 0x16 || first == 0x15)),
        x is ConnectFailed ==> verdict_of(ip, x, timeout).0 == Verdict::TcpBlocked,
        x is TimedOut ==> verdict_of(ip, x, timeout).0 == Verdict::TlsSilent,
        x is SendFailed || x is Closed || x is ReadFailed ==> verdict_of(ip, x, timeout).0
            == Verdict::TlsReset,
        x matches ExchangeView::Replied { n, first } && !(n > 0 && (first == 0x16 || first == 0x15))
            ==> verdict_of(ip, x, timeout).0 == Verdict::TlsReset,
        x matches ExchangeView::ReadFailed(e) ==> verdict_of(ip, x, timeout).1 == ip + ": "@ + e,
        x matches ExchangeView::ConnectFailed(e) ==> verdict_of(ip, x, timeout).1 == ip + ": "@ + e,
{
}
} // verus!
