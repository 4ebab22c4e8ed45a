//! What the unprivileged GUI decides for itself: which log names may be read, how much of a log
//! to show, how a diagnostics file reads, which files are saved configs, what `systemctl`'s
//! answers mean, and why the daemon's socket refused this user.
//!
//! Reading files and running programs is the caller's; their outputs are interpreted here.

use crate::config::{
    config_error, debug_quoted, debug_str, error_message, opt_view, Config, ConfigView,
    NFQWS2_COMPAT_VER, SCHEMA_VERSION,
};
use crate::ports::{insert_sorted, sort_dedup, strictly_sorted};
use crate::protocol::Response;
use crate::text::{
    copy_str, decimal, decimal_string, find_char, has_char, index_of, lemma_find_char, lines,
    lines_of, parse_u32, parse_u32_str, push_str, split_on, split_str, starts_with, is_prefix,
    str_eq, trim, trim_str, views, words, words_of, lex_lt, lemma_lex_total, lemma_lex_asymmetric,
    lemma_lex_transitive, str_lt,
};
use vstd::multiset::Multiset;
use vstd::prelude::*;
use vstd::seq_lib::{group_to_multiset_ensures, to_multiset_insert};
use vstd::string::*;

verus! {

// ---------------------------------------------------------------------------------------------
// Log names
// ---------------------------------------------------------------------------------------------

/// A name that plainly is not a file directly inside the log directory: empty, holding a
/// separator or NUL, hidden, or the parent directory.
pub open spec fn plainly_bad_log_name(name: Seq<char>) -> bool {
    ||| name.len() == 0
    ||| name.contains('/')
    ||| name.contains('\\')
    ||| name.contains('\0')
    ||| (name.len() > 0 && name[0] == '.')
    ||| name == ".."@
}

pub open spec fn not_a_log_name(name: Seq<char>) -> Seq<char> {
    debug_str(name) + " is not a log file name"@
}

/// Rejects anything that is not a plain filename directly inside the log directory, given how
/// many path components the platform reads in it. The name comes from the UI, and a path
/// traversal here would read arbitrary files as the user.
pub fn check_log_name(name: &str, components: usize) -> (r: Result<(), String>)
    ensures
        match r {
            Ok(()) => !plainly_bad_log_name(name@) && components == 1,
            Err(m) => (plainly_bad_log_name(name@) || components != 1) && m@ == not_a_log_name(name@),
        },
{
    let n = name.unicode_len();
    let bad = n == 0 || has_char(name, '/') || has_char(name, '\\') || has_char(name, '\0') || (n
        > 0 && name.get_char(0) == '.') || str_eq(name, "..") || components != 1;
    if bad {
        let mut m = debug_quoted(name);
        push_str(&mut m, " is not a log file name");
        return Err(m);
    }
    Ok(())
}

/// `std::path::Path::components`, counted: how many components the platform reads in `name`.
/// What std documents is stated for a name with no separator (`/`, and `\` where it is one),
/// no drive or UNC prefix (which needs a `:` or a `\`), and no leading `.`: such a name is a
/// single normal component on every platform. For other names the count follows the platform's
/// own prefix and separator rules, and nothing more is stated of it.
#[verifier::external_body]
fn component_count(name: &str) -> (r: usize)
    ensures
        name@.len() > 0 && name@[0] != '.' && !name@.contains('/') && !name@.contains('\\')
            && !name@.contains(':') ==> r == 1,
{
    std::path::Path::new(name).components().count()
}

/// Whether `name` may be read from the log directory. A plain file name is accepted on every
/// platform; one with a `:` is accepted only where the platform reads no drive prefix in it.
pub fn log_name(name: &str) -> (r: Result<(), String>)
    ensures
        r is Ok ==> !plainly_bad_log_name(name@),
        plainly_bad_log_name(name@) ==> (r matches Err(m) && m@ == not_a_log_name(name@)),
        !plainly_bad_log_name(name@) && !name@.contains(':') ==> r is Ok,
        r matches Err(m) ==> m@ == not_a_log_name(name@),
{
    check_log_name(name, component_count(name))
}

// ---------------------------------------------------------------------------------------------
// Tailing
// ---------------------------------------------------------------------------------------------

/// How much of a file the viewer will read, in bytes. Enough to cover a crash and its lead-up;
/// small enough that a log left running for a month does not become a 200 MB string.
pub const TAIL_BYTES: u64 = 262144;

/// Where reading starts in a file of `len` bytes: its last [`TAIL_BYTES`], or all of it.
pub fn tail_offset(len: u64) -> (r: Option<u64>)
    ensures
        r == (if len > TAIL_BYTES {
            Some((len - TAIL_BYTES) as u64)
        } else {
            None::<u64>
        }),
{
    if len > TAIL_BYTES {
        Some(len - TAIL_BYTES)
    } else {
        None
    }
}

/// What is shown of the text read: when the read started partway into the file, everything
/// after its first line break, since seeking to a byte offset almost never lands on a line start.
pub open spec fn tail_of(text: Seq<char>, truncated: bool) -> Seq<char> {
    if truncated && text.contains('\n') {
        text.skip(find_char(text, '\n') + 1)
    } else {
        text
    }
}

pub fn tail_text(text: String, truncated: bool) -> (r: String)
    ensures
        r@ == tail_of(text@, truncated),
{
    proof {
        lemma_find_char(text@, '\n');
    }
    if truncated {
        if let Some(nl) = index_of(text.as_str(), '\n') {
            let n = text.as_str().unicode_len();
            return text.as_str().substring_char(nl + 1, n).to_owned();
        }
    }
    text
}

// ---------------------------------------------------------------------------------------------
// Listing logs
// ---------------------------------------------------------------------------------------------

/// A file in the log directory.
pub struct LogFile {
    pub name: String,
    pub size: u64,
    /// Unix epoch seconds, so the UI can sort and show "most recent first".
    pub modified: Option<u64>,
}

/// `a` may stand before `b` in the list: most recently modified first, files with no known time
/// last, and by name where the times agree.
pub open spec fn goes_before(a: LogFile, b: LogFile) -> bool {
    match (a.modified, b.modified) {
        (Some(x), Some(y)) => x > y || (x == y && !lex_lt(b.name@, a.name@)),
        (Some(_), None) => true,
        (None, Some(_)) => false,
        (None, None) => !lex_lt(b.name@, a.name@),
    }
}

pub open spec fn newest_first(s: Seq<LogFile>) -> bool {
    forall|i: int, j: int| 0 <= i < j < s.len() ==> goes_before(#[trigger] s[i], #[trigger] s[j])
}

proof fn lemma_goes_before_total(a: LogFile, b: LogFile)
    ensures
        goes_before(a, b) || goes_before(b, a),
{
    lemma_lex_total(a.name@, b.name@);
    lemma_lex_asymmetric(a.name@, b.name@);
}

proof fn lemma_goes_before_transitive(a: LogFile, b: LogFile, c: LogFile)
    requires
        goes_before(a, b),
        goes_before(b, c),
    ensures
        goes_before(a, c),
{
    lemma_lex_total(a.name@, b.name@);
    lemma_lex_total(b.name@, c.name@);
    lemma_lex_total(a.name@, c.name@);
    if lex_lt(a.name@, b.name@) && lex_lt(b.name@, c.name@) {
        lemma_lex_transitive(a.name@, b.name@, c.name@);
    }
    lemma_lex_asymmetric(a.name@, c.name@);
    lemma_lex_asymmetric(a.name@, b.name@);
    lemma_lex_asymmetric(b.name@, c.name@);
}

fn comes_first(a: &LogFile, b: &LogFile) -> (r: bool)
    ensures
        r == goes_before(*a, *b),
{
    match (a.modified, b.modified) {
        (Some(x), Some(y)) => x > y || (x == y && !str_lt(b.name.as_str(), a.name.as_str())),
        (Some(_), None) => true,
        (None, Some(_)) => false,
        (None, None) => !str_lt(b.name.as_str(), a.name.as_str()),
    }
}

/// Inserts `x` into the ordered list `out`, after every file that may stand before it.
fn insert_log(out: &mut Vec<LogFile>, x: LogFile)
    requires
        newest_first(old(out)@),
    ensures
        newest_first(final(out)@),
        final(out)@.to_multiset() == old(out)@.to_multiset().insert(x),
{
    let n = out.len();
    let mut k: usize = 0;
    while k < n && comes_first(&out[k], &x)
        invariant
            n == out@.len(),
            k <= n,
            forall|j: int| 0 <= j < k ==> goes_before(#[trigger] out@[j], x),
        decreases n - k,
    {
        k = k + 1;
    }
    let ghost s = out@;
    proof {
        if k < n {
            lemma_goes_before_total(s[k as int], x);
        }
        to_multiset_insert(s, k as int, x);
    }
    out.insert(k, x);
    proof {
        let t = out@;
        assert(t == s.insert(k as int, x));
        assert forall|i: int, j: int| 0 <= i < j < t.len() implies goes_before(
            #[trigger] t[i],
            #[trigger] t[j],
        ) by {
            if j < k {
                assert(t[i] == s[i] && t[j] == s[j]);
            } else if j == k {
                assert(t[i] == s[i]);
            } else if i == k {
                assert(t[j] == s[j - 1]);
                if j - 1 > k {
                    lemma_goes_before_transitive(x, s[k as int], s[j - 1]);
                }
            } else if i < k {
                assert(t[i] == s[i] && t[j] == s[j - 1]);
            } else {
                assert(t[i] == s[i - 1] && t[j] == s[j - 1]);
            }
        }
    }
}

/// The log directory's files, most recently modified first and then by name.
pub fn order_logs(files: Vec<LogFile>) -> (r: Vec<LogFile>)
    ensures
        newest_first(r@),
        r@.to_multiset() == files@.to_multiset(),
{
    let ghost all = files@;
    let mut rest = files;
    let mut out: Vec<LogFile> = Vec::new();
    proof {
        broadcast use group_to_multiset_ensures;
    }
    assert(out@.to_multiset().add(rest@.to_multiset()) =~= all.to_multiset()) by {
        broadcast use group_to_multiset_ensures;
        assert(out@.to_multiset() =~= Multiset::empty());
    }
    while rest.len() > 0
        invariant
            newest_first(out@),
            out@.to_multiset().add(rest@.to_multiset()) == all.to_multiset(),
        decreases rest@.len(),
    {
        let ghost before = rest@;
        let x = rest.remove(0);
        proof {
            broadcast use group_to_multiset_ensures;
            assert(rest@ == before.remove(0));
            assert(rest@.to_multiset() =~= before.to_multiset().remove(x));
        }
        let ghost out_before = out@;
        insert_log(&mut out, x);
        proof {
            broadcast use group_to_multiset_ensures;
            assert(before.to_multiset().count(x) > 0) by {
                assert(before.contains(x));
            }
            assert(out@.to_multiset().add(rest@.to_multiset()) =~= all.to_multiset());
        }
    }
    out
}

// ---------------------------------------------------------------------------------------------
// Diagnostics
// ---------------------------------------------------------------------------------------------

pub open spec fn diagnostics_name(stamp: u64) -> Seq<char> {
    "blkbstr-diagnostics-"@ + decimal(stamp as nat) + ".txt"@
}

/// The file a diagnostics export is written to, stamped with the time in Unix seconds.
pub fn diagnostics_file_name(stamp: u64) -> (r: String)
    ensures
        r@ == diagnostics_name(stamp),
{
    let mut r = "blkbstr-diagnostics-".to_owned();
    push_str(&mut r, decimal_string(stamp).as_str());
    push_str(&mut r, ".txt");
    r
}

pub open spec fn log_section(name: Seq<char>, read: Result<Seq<char>, Seq<char>>) -> Seq<char> {
    "## "@ + name + "\n\n"@ + match read {
        Ok(text) => text,
        Err(e) => "(could not read: "@ + e + ")\n"@,
    } + "\n\n"@
}

pub open spec fn log_sections(logs: Seq<(Seq<char>, Result<Seq<char>, Seq<char>>)>) -> Seq<char>
    decreases logs.len(),
{
    if logs.len() == 0 {
        Seq::empty()
    } else {
        log_sections(logs.drop_last()) + log_section(logs.last().0, logs.last().1)
    }
}

pub open spec fn read_view(r: Result<String, String>) -> Result<Seq<char>, Seq<char>> {
    match r {
        Ok(t) => Ok(t@),
        Err(e) => Err(e@),
    }
}

pub open spec fn logs_view(logs: Seq<(String, Result<String, String>)>) -> Seq<
    (Seq<char>, Result<Seq<char>, Seq<char>>),
> {
    logs.map_values(|l: (String, Result<String, String>)| (l.0@, read_view(l.1)))
}

/// Everything a bug report needs, in one file the user reads before deciding to send it: the
/// app's version, the platform, the daemon's status, then each log asked for (or why it could not
/// be read).
pub open spec fn diagnostics(
    app_version: Seq<char>,
    platform: Seq<char>,
    status: Seq<char>,
    logs: Seq<(Seq<char>, Result<Seq<char>, Seq<char>>)>,
) -> Seq<char> {
    "# Blockbuster diagnostics\n\n"@ + "app version: "@ + app_version + "\n"@ + "platform: "@
        + platform + "\n\n"@ + "## Status\n\n"@ + status + "\n\n"@ + log_sections(logs)
}

pub fn diagnostics_text(
    app_version: &str,
    platform: &str,
    status: &str,
    logs: &Vec<(String, Result<String, String>)>,
) -> (r: String)
    ensures
        r@ == diagnostics(app_version@, platform@, status@, logs_view(logs@)),
{
    let mut out = "# Blockbuster diagnostics\n\n".to_owned();
    push_str(&mut out, "app version: ");
    push_str(&mut out, app_version);
    push_str(&mut out, "\n");
    push_str(&mut out, "platform: ");
    push_str(&mut out, platform);
    push_str(&mut out, "\n\n");
    push_str(&mut out, "## Status\n\n");
    push_str(&mut out, status);
    push_str(&mut out, "\n\n");
    let ghost head = out@;
    let ghost all = logs_view(logs@);
    let n = logs.len();
    let mut i: usize = 0;
    assert(all.take(0) =~= Seq::<(Seq<char>, Result<Seq<char>, Seq<char>>)>::empty());
    assert(head + log_sections(all.take(0)) =~= head);
    while i < n
        invariant
            n == logs@.len(),
            all == logs_view(logs@),
            i <= n,
            out@ == head + log_sections(all.take(i as int)),
        decreases n - i,
    {
        let (name, read) = &logs[i];
        push_str(&mut out, "## ");
        push_str(&mut out, name.as_str());
        push_str(&mut out, "\n\n");
        match read {
            Ok(text) => push_str(&mut out, text.as_str()),
            Err(e) => {
                push_str(&mut out, "(could not read: ");
                push_str(&mut out, e.as_str());
                push_str(&mut out, ")\n");
            },
        }
        push_str(&mut out, "\n\n");
        proof {
            let t = all.take(i + 1);
            assert(t.drop_last() =~= all.take(i as int));
            assert(t.last() == (name@, read_view(*read)));
            assert(out@ =~= head + log_sections(t));
        }
        i = i + 1;
    }
    assert(all.take(n as int) =~= all);
    out
}

// ---------------------------------------------------------------------------------------------
// Saved configs
// ---------------------------------------------------------------------------------------------

/// What `Config::new(name)` holds.
pub open spec fn bare_config(name: Seq<char>) -> ConfigView {
    ConfigView {
        schema: SCHEMA_VERSION,
        name,
        notes: None,
        compat: NFQWS2_COMPAT_VER,
        strategies: Seq::empty(),
    }
}

/// The file a config named `name` is saved in. Validation happens before the name reaches the
/// filesystem, so `name` can never traverse.
pub fn config_file_name(name: &str) -> (r: Result<String, String>)
    ensures
        match r {
            Ok(f) => config_error(bare_config(name@)) is None && f@ == name@ + ".json"@,
            Err(m) => config_error(bare_config(name@)) matches Some(e) && m@ == error_message(e),
        },
{
    let probe = Config::new(name);
    assert(probe@ =~= bare_config(name@));
    match probe.validate() {
        Ok(()) => {
            let mut f = copy_str(name);
            push_str(&mut f, ".json");
            Ok(f)
        },
        Err(e) => Err(e.message()),
    }
}

/// The position of the last `.` in `s`, or -1.
pub open spec fn last_dot(s: Seq<char>) -> int
    decreases s.len(),
{
    if s.len() == 0 {
        -1
    } else if s.last() == '.' {
        s.len() - 1
    } else {
        last_dot(s.drop_last())
    }
}

/// The stem of a file name whose extension is `json`, as `Path::file_stem` and `Path::extension`
/// read it: split at the last dot, unless that dot leads the name.
pub open spec fn json_stem(file: Seq<char>) -> Option<Seq<char>> {
    let d = last_dot(file);
    if file != ".."@ && d > 0 && file.skip(d + 1) == "json"@ {
        Some(file.take(d))
    } else {
        None
    }
}

pub open spec fn json_stems(files: Seq<Seq<char>>) -> Seq<Seq<char>>
    decreases files.len(),
{
    if files.len() == 0 {
        Seq::empty()
    } else {
        json_stems(files.drop_last()) + match json_stem(files.last()) {
            Some(s) => seq![s],
            None => Seq::empty(),
        }
    }
}

proof fn lemma_last_dot(s: Seq<char>)
    ensures
        -1 <= last_dot(s) < s.len(),
        last_dot(s) >= 0 ==> s[last_dot(s)] == '.',
        forall|j: int| last_dot(s) < j < s.len() ==> s[j] != '.',
    decreases s.len(),
{
    if s.len() > 0 {
        lemma_last_dot(s.drop_last());
        assert forall|j: int| last_dot(s) < j < s.len() implies s[j] != '.' by {
            if j < s.len() - 1 {
                assert(s[j] == s.drop_last()[j]);
            }
        }
    }
}

fn stem_of(file: &str) -> (r: Option<String>)
    ensures
        opt_view(r) == json_stem(file@),
{
    proof {
        lemma_last_dot(file@);
    }
    let n = file.unicode_len();
    let mut d: usize = n;
    while d > 0 && file.get_char(d - 1) != '.'
        invariant
            n == file@.len(),
            d <= n,
            forall|j: int| d <= j < n ==> file@[j] != '.',
            -1 <= last_dot(file@) < n,
            last_dot(file@) >= 0 ==> file@[last_dot(file@)] == '.',
            forall|j: int| last_dot(file@) < j < n ==> file@[j] != '.',
        decreases d,
    {
        d = d - 1;
    }
    // `d - 1` is the last dot, when `d > 0`.
    if d == 0 {
        assert(last_dot(file@) < 0);
        return None;
    }
    assert(last_dot(file@) == d - 1);
    if d - 1 == 0 || str_eq(file, "..") {
        return None;
    }
    let ext = file.substring_char(d, n);
    assert(ext@ =~= file@.skip(d as int));
    if !str_eq(ext, "json") {
        return None;
    }
    let stem = file.substring_char(0, d - 1).to_owned();
    assert(stem@ =~= file@.take(d - 1));
    Some(stem)
}

/// The saved configs among the files in the configs directory: the stems of the `.json` files,
/// sorted, each once.
pub fn config_names(files: &Vec<String>) -> (r: Vec<String>)
    ensures
        views(r@) == sort_dedup(json_stems(views(files@))),
        strictly_sorted(views(r@)),
{
    let ghost all = views(files@);
    let mut names: Vec<String> = Vec::new();
    let n = files.len();
    let mut i: usize = 0;
    assert(all.take(0) =~= Seq::<Seq<char>>::empty());
    assert(views(names@) =~= sort_dedup(json_stems(all.take(0))));
    while i < n
        invariant
            n == all.len(),
            all == views(files@),
            i <= n,
            strictly_sorted(views(names@)),
            views(names@) == sort_dedup(json_stems(all.take(i as int))),
        decreases n - i,
    {
        let ghost stems = json_stems(all.take(i as int));
        proof {
            let t = all.take(i + 1);
            assert(t.drop_last() =~= all.take(i as int));
            assert(t.last() == files@[i as int]@);
        }
        match stem_of(files[i].as_str()) {
            Some(stem) => {
                proof {
                    let t = all.take(i + 1);
                    assert(json_stems(t) == stems.push(stem@));
                    assert(stems.push(stem@).drop_last() =~= stems);
                }
                insert_sorted(&mut names, stem);
            },
            None => {
                proof {
                    let t = all.take(i + 1);
                    assert(json_stems(t) =~= stems);
                }
            },
        }
        i = i + 1;
    }
    assert(all.take(n as int) =~= all);
    names
}

// ---------------------------------------------------------------------------------------------
// The service
// ---------------------------------------------------------------------------------------------

/// The daemon's service unit.
pub const UNIT: &'static str = "blkbstrd.service";

pub struct ServiceStatus {
    /// False when the unit file is not installed at all — the first-run state.
    pub installed: bool,
    /// Starts at boot.
    pub enabled: bool,
    /// Running now.
    pub active: bool,
    /// Set when this platform has no service integration yet.
    pub unsupported: Option<String>,
}

pub open spec fn systemd_only() -> Seq<char> {
    "service control is systemd-only so far"@
}

/// The status on a platform without service integration.
pub fn unsupported_status() -> (r: ServiceStatus)
    ensures
        !r.installed && !r.enabled && !r.active,
        opt_view(r.unsupported) == Some(systemd_only()),
{
    ServiceStatus {
        installed: false,
        enabled: false,
        active: false,
        unsupported: Some("service control is systemd-only so far".to_owned()),
    }
}

pub open spec fn answer_view(a: Option<&str>) -> Option<Seq<char>> {
    match a {
        Some(s) => Some(s@),
        None => None,
    }
}

/// What `systemctl is-enabled` and `is-active` answered (their trimmed output, if any) comes to.
/// The exit status is ignored: "disabled" and "inactive" exit non-zero without being errors.
pub fn service_status_from(enabled: Option<&str>, active: Option<&str>) -> (r: ServiceStatus)
    ensures
        r.installed == (answer_view(enabled) is Some && answer_view(enabled) != Some("not-found"@)),
        r.enabled == (answer_view(enabled) == Some("enabled"@) || answer_view(enabled) == Some(
            "enabled-runtime"@,
        )),
        r.active == (answer_view(active) == Some("active"@)),
        r.unsupported is None,
{
    let installed = match enabled {
        Some(e) => !str_eq(e, "not-found"),
        None => false,
    };
    let is_enabled = match enabled {
        Some(e) => str_eq(e, "enabled") || str_eq(e, "enabled-runtime"),
        None => false,
    };
    let is_active = match active {
        Some(a) => str_eq(a, "active"),
        None => false,
    };
    ServiceStatus { installed, enabled: is_enabled, active: is_active, unsupported: None }
}

/// A query's answer: the trimmed standard output, unless it is empty.
pub fn query_answer(stdout: &str) -> (r: Option<String>)
    ensures
        opt_view(r) == (if trim(stdout@).len() > 0 {
            Some(trim(stdout@))
        } else {
            None::<Seq<char>>
        }),
{
    let t = trim_str(stdout);
    if t.as_str().is_empty() {
        None
    } else {
        Some(t)
    }
}

/// The `systemctl` verb that makes the service start at boot, or stop doing so.
pub fn enable_verb(enabled: bool) -> (r: &'static str)
    ensures
        r@ == (if enabled {
            "enable"@
        } else {
            "disable"@
        }),
{
    if enabled {
        "enable"
    } else {
        "disable"
    }
}

/// The `systemctl` verb that starts the service now, or stops it.
pub fn active_verb(active: bool) -> (r: &'static str)
    ensures
        r@ == (if active {
            "start"@
        } else {
            "stop"@
        }),
{
    if active {
        "start"
    } else {
        "stop"
    }
}

/// Why `systemctl verb` failed: what it said on standard error, trimmed, or a plain statement
/// when it said nothing.
pub open spec fn failure_of(verb: Seq<char>, stderr: Seq<char>) -> Seq<char> {
    if trim(stderr).len() == 0 {
        "systemctl "@ + verb + " "@ + "blkbstrd.service"@ + " failed"@
    } else {
        trim(stderr)
    }
}

pub fn failure_text(verb: &str, stderr: &str) -> (r: String)
    ensures
        r@ == failure_of(verb@, stderr@),
{
    let detail = trim_str(stderr);
    if detail.as_str().is_empty() {
        let mut m = "systemctl ".to_owned();
        push_str(&mut m, verb);
        push_str(&mut m, " ");
        push_str(&mut m, UNIT);
        push_str(&mut m, " failed");
        m
    } else {
        detail
    }
}

// ---------------------------------------------------------------------------------------------
// Talking to the daemon
// ---------------------------------------------------------------------------------------------

/// Why a request to the daemon failed. Told apart so the UI can offer "install the service"
/// instead of a raw I/O message.
pub enum Error {
    Unreachable(String),
    Io(String),
    Daemon(String),
}

pub open spec fn daemon_error_message(e: Error) -> Seq<char> {
    match e {
        Error::Unreachable(m) => "blkbstrd is not running or not reachable: "@ + m@,
        Error::Io(m) => "talking to blkbstrd failed: "@ + m@,
        Error::Daemon(m) => m@,
    }
}

impl Error {
    /// The human-readable description of the failure.
    pub fn message(&self) -> (r: String)
        ensures
            r@ == daemon_error_message(*self),
    {
        match self {
            Error::Unreachable(m) => {
                let mut r = "blkbstrd is not running or not reachable: ".to_owned();
                push_str(&mut r, m.as_str());
                r
            },
            Error::Io(m) => {
                let mut r = "talking to blkbstrd failed: ".to_owned();
                push_str(&mut r, m.as_str());
                r
            },
            Error::Daemon(m) => copy_str(m.as_str()),
        }
    }
}

pub open spec fn closed_without_reply() -> Seq<char> {
    "daemon closed the connection without replying"@
}

/// What a request came to, given the reply read back (none when the daemon hung up): an error
/// reply is the daemon's error, anything else is the answer.
pub fn reply_of(reply: Option<Response>) -> (r: Result<Response, Error>)
    ensures
        match reply {
            Some(Response::Error { message, .. }) => r matches Err(Error::Daemon(m)) && m@
                == message@,
            Some(other) => r matches Ok(x) && x@ == other@,
            None => r matches Err(Error::Io(m)) && m@ == closed_without_reply(),
        },
{
    match reply {
        Some(Response::Error { message, .. }) => Err(Error::Daemon(message)),
        Some(response) => Ok(response),
        None => Err(Error::Io("daemon closed the connection without replying".to_owned())),
    }
}

/// The fields of a `/etc/group` line, `name:password:gid:members`, as `splitn(4, ':')` reads
/// them: the name, the gid field, and the members field (empty when absent), or nothing when the
/// line has fewer than three fields.
pub open spec fn group_fields(line: Seq<char>) -> Option<(Seq<char>, Seq<char>, Seq<char>)> {
    if !line.contains(':') {
        None
    } else {
        let a = find_char(line, ':');
        let rest = line.skip(a + 1);
        if !rest.contains(':') {
            None
        } else {
            let b = find_char(rest, ':');
            let tail = rest.skip(b + 1);
            if tail.contains(':') {
                let c = find_char(tail, ':');
                Some((line.take(a), tail.take(c), tail.skip(c + 1)))
            } else {
                Some((line.take(a), tail, Seq::empty()))
            }
        }
    }
}

pub open spec fn non_empty(s: Seq<Seq<char>>) -> Seq<Seq<char>>
    decreases s.len(),
{
    if s.len() == 0 {
        Seq::empty()
    } else {
        non_empty(s.drop_last()) + if s.last().len() > 0 {
            seq![s.last()]
        } else {
            Seq::empty()
        }
    }
}

/// The group with id `gid` among the lines of `/etc/group`: its name and members, from the first
/// line naming that id.
pub open spec fn group_with(ls: Seq<Seq<char>>, gid: u32) -> Option<(Seq<char>, Seq<Seq<char>>)>
    decreases ls.len(),
{
    if ls.len() == 0 {
        None
    } else {
        match group_fields(ls[0]) {
            Some((name, id, members)) => if id == decimal(gid as nat) {
                Some((name, non_empty(split_on(members, ','))))
            } else {
                group_with(ls.skip(1), gid)
            },
            None => group_with(ls.skip(1), gid),
        }
    }
}

fn fields_of(line: &str) -> (r: Option<(String, String, String)>)
    ensures
        match r {
            Some((a, b, c)) => group_fields(line@) == Some((a@, b@, c@)),
            None => group_fields(line@) is None,
        },
{
    let n = line.unicode_len();
    let a = match index_of(line, ':') {
        Some(a) => a,
        None => return None,
    };
    let rest = line.substring_char(a + 1, n);
    assert(rest@ =~= line@.skip(a + 1));
    let m = rest.unicode_len();
    let b = match index_of(rest, ':') {
        Some(b) => b,
        None => return None,
    };
    let tail = rest.substring_char(b + 1, m);
    assert(tail@ =~= rest@.skip(b + 1));
    let name = line.substring_char(0, a).to_owned();
    assert(name@ =~= line@.take(a as int));
    let k = tail.unicode_len();
    match index_of(tail, ':') {
        Some(c) => {
            let id = tail.substring_char(0, c).to_owned();
            let members = tail.substring_char(c + 1, k).to_owned();
            assert(id@ =~= tail@.take(c as int));
            assert(members@ =~= tail@.skip(c + 1));
            Some((name, id, members))
        },
        None => Some((name, tail.to_owned(), String::new())),
    }
}

fn non_empty_pieces(pieces: Vec<String>) -> (r: Vec<String>)
    ensures
        views(r@) == non_empty(views(pieces@)),
{
    let ghost all = views(pieces@);
    let mut out: Vec<String> = Vec::new();
    let n = pieces.len();
    let mut i: usize = 0;
    assert(all.take(0) =~= Seq::<Seq<char>>::empty());
    while i < n
        invariant
            n == all.len(),
            all == views(pieces@),
            i <= n,
            views(out@) == non_empty(all.take(i as int)),
        decreases n - i,
    {
        let p = pieces[i].as_str();
        proof {
            let t = all.take(i + 1);
            assert(t.drop_last() =~= all.take(i as int));
            assert(t.last() == p@);
        }
        if !p.is_empty() {
            out.push(copy_str(p));
        }
        assert(views(out@) =~= non_empty(all.take(i + 1)));
        i = i + 1;
    }
    assert(all.take(n as int) =~= all);
    out
}

/// The name and members of group `gid`, from the text of `/etc/group`.
pub fn parse_group(text: &str, gid: u32) -> (r: Option<(String, Vec<String>)>)
    ensures
        match r {
            Some((name, members)) => group_with(lines(text@), gid) == Some((name@, views(members@))),
            None => group_with(lines(text@), gid) is None,
        },
{
    let ls = lines_of(text);
    let ghost all = lines(text@);
    let wanted = decimal_string(gid as u64);
    let n = ls.len();
    let mut i: usize = 0;
    assert(all.skip(0) =~= all);
    while i < n
        invariant
            n == all.len(),
            all == lines(text@),
            views(ls@) == all,
            wanted@ == decimal(gid as nat),
            i <= n,
            group_with(all.skip(i as int), gid) == group_with(all, gid),
        decreases n - i,
    {
        assert(all.skip(i as int)[0] == ls@[i as int]@);
        assert(all.skip(i as int).skip(1) =~= all.skip(i + 1));
        if let Some((name, id, members)) = fields_of(ls[i].as_str()) {
            if str_eq(id.as_str(), wanted.as_str()) {
                let listed = non_empty_pieces(split_str(members.as_str(), ','));
                return Some((name, listed));
            }
        }
        i = i + 1;
    }
    assert(all.skip(n as int) =~= Seq::<Seq<char>>::empty());
    None
}

/// The numbers in the first line of `/proc/self/status` that starts with `field`, when every one
/// of them parses.
pub open spec fn status_numbers(ls: Seq<Seq<char>>, field: Seq<char>) -> Option<Seq<u32>>
    decreases ls.len(),
{
    if ls.len() == 0 {
        None
    } else if is_prefix(field, ls[0]) {
        all_parsed(words(ls[0].skip(field.len() as int)))
    } else {
        status_numbers(ls.skip(1), field)
    }
}

pub open spec fn all_parsed(ws: Seq<Seq<char>>) -> Option<Seq<u32>>
    decreases ws.len(),
{
    if ws.len() == 0 {
        Some(Seq::empty())
    } else {
        match (all_parsed(ws.drop_last()), parse_u32(ws.last())) {
            (Some(ns), Some(n)) => Some(ns.push(n)),
            _ => None,
        }
    }
}

fn parse_all(ws: &Vec<String>) -> (r: Option<Vec<u32>>)
    ensures
        match r {
            Some(v) => all_parsed(views(ws@)) == Some(v@),
            None => all_parsed(views(ws@)) is None,
        },
{
    let ghost all = views(ws@);
    let mut out: Vec<u32> = Vec::new();
    let n = ws.len();
    let mut i: usize = 0;
    assert(all.take(0) =~= Seq::<Seq<char>>::empty());
    while i < n
        invariant
            n == all.len(),
            all == views(ws@),
            i <= n,
            all_parsed(all.take(i as int)) == Some(out@),
        decreases n - i,
    {
        proof {
            let t = all.take(i + 1);
            assert(t.drop_last() =~= all.take(i as int));
            assert(t.last() == ws@[i as int]@);
        }
        match parse_u32_str(ws[i].as_str()) {
            Some(v) => out.push(v),
            None => {
                proof {
                    lemma_all_parsed_none(all, i as int);
                }
                return None;
            },
        }
        i = i + 1;
    }
    assert(all.take(n as int) =~= all);
    Some(out)
}

proof fn lemma_all_parsed_none(all: Seq<Seq<char>>, i: int)
    requires
        0 <= i < all.len(),
        parse_u32(all[i]) is None,
    ensures
        all_parsed(all) is None,
    decreases all.len(),
{
    if i < all.len() - 1 {
        assert(all.drop_last()[i] == all[i]);
        lemma_all_parsed_none(all.drop_last(), i);
    }
}

/// The ids after `field` in the text of `/proc/self/status`.
pub fn status_field(status: &str, field: &str) -> (r: Option<Vec<u32>>)
    ensures
        match r {
            Some(v) => status_numbers(lines(status@), field@) == Some(v@),
            None => status_numbers(lines(status@), field@) is None,
        },
{
    let ls = lines_of(status);
    let ghost all = lines(status@);
    let n = ls.len();
    let mut i: usize = 0;
    assert(all.skip(0) =~= all);
    while i < n
        invariant
            n == all.len(),
            all == lines(status@),
            views(ls@) == all,
            i <= n,
            status_numbers(all.skip(i as int), field@) == status_numbers(all, field@),
        decreases n - i,
    {
        let l = ls[i].as_str();
        assert(all.skip(i as int)[0] == l@);
        assert(all.skip(i as int).skip(1) =~= all.skip(i + 1));
        if starts_with(l, field) {
            let m = l.unicode_len();
            let rest = l.substring_char(field.unicode_len(), m);
            assert(rest@ =~= l@.skip(field@.len() as int));
            return parse_all(&words_of(rest));
        }
        i = i + 1;
    }
    assert(all.skip(n as int) =~= Seq::<Seq<char>>::empty());
    None
}

/// This process's groups, real and supplementary: the `Groups:` ids, then the `Gid:` ids.
pub fn process_groups(status: &str) -> (r: Option<Vec<u32>>)
    ensures
        match r {
            Some(v) => status_numbers(lines(status@), "Groups:"@) matches Some(g)
                && status_numbers(lines(status@), "Gid:"@) matches Some(h) && v@ == g + h,
            None => status_numbers(lines(status@), "Groups:"@) is None || status_numbers(
                lines(status@),
                "Gid:"@,
            ) is None,
        },
{
    let mut groups = match status_field(status, "Groups:") {
        Some(g) => g,
        None => return None,
    };
    let mut gids = match status_field(status, "Gid:") {
        Some(h) => h,
        None => return None,
    };
    groups.append(&mut gids);
    Some(groups)
}

pub open spec fn in_group_message(group: Seq<char>) -> Seq<char> {
    ". Your account is in the "@ + group
        + " group, but this session started before it was added — log out and back in"@
}

pub open spec fn not_in_group_message(group: Seq<char>, user: Seq<char>) -> Seq<char> {
    ". Your account is not in the "@ + group + " group — run `sudo usermod -aG "@ + group + " "@
        + user + "`, then log out and back in"@
}

/// What to add to a refused connection, given the socket's group `gid`, this process's groups
/// (when known), the group's entry (when found) and the user's name (when known). The socket's
/// group is the authorization model, and `usermod -aG` does not touch a session that is already
/// running, so a fresh install fails until the user logs out and back in.
pub open spec fn hint_of(
    gid: u32,
    groups: Option<Seq<u32>>,
    entry: Option<(Seq<char>, Seq<Seq<char>>)>,
    user: Option<Seq<char>>,
) -> Option<Seq<char>> {
    match groups {
        None => None,
        Some(gs) => if gs.contains(gid) {
            None
        } else {
            match (entry, user) {
                (Some((group, members)), Some(u)) => Some(
                    if members.contains(u) {
                        in_group_message(group)
                    } else {
                        not_in_group_message(group, u)
                    },
                ),
                _ => None,
            }
        },
    }
}

pub fn group_hint(
    gid: u32,
    groups: Option<Vec<u32>>,
    entry: Option<(String, Vec<String>)>,
    user: Option<String>,
) -> (r: Option<String>)
    ensures
        opt_view(r) == hint_of(
            gid,
            match groups {
                Some(g) => Some(g@),
                None => None,
            },
            match entry {
                Some((g, m)) => Some((g@, views(m@))),
                None => None,
            },
            opt_view(user),
        ),
{
    let ghost gv = match &groups {
        Some(g) => Some(g@),
        None => None,
    };
    let gs = match groups {
        Some(g) => g,
        None => return None,
    };
    let n = gs.len();
    let mut i: usize = 0;
    while i < n
        invariant
            n == gs@.len(),
            gv == Some(gs@),
            gv == (match groups {
                Some(g) => Some(g@),
                None => None,
            }),
            i <= n,
            forall|j: int| 0 <= j < i ==> gs@[j] != gid,
        decreases n - i,
    {
        if gs[i] == gid {
            assert(gs@.contains(gid));
            return None;
        }
        i = i + 1;
    }
    assert(!gs@.contains(gid));
    let (group, members) = match entry {
        Some(e) => e,
        None => return None,
    };
    let user = match user {
        Some(u) => u,
        None => return None,
    };
    let ghost mv = views(members@);
    let m = members.len();
    let mut k: usize = 0;
    let mut member = false;
    while k < m
        invariant
            m == mv.len(),
            mv == views(members@),
            k <= m,
            member ==> mv.contains(user@),
            !member ==> forall|j: int| 0 <= j < k ==> mv[j] != user@,
        decreases m - k,
    {
        if str_eq(members[k].as_str(), user.as_str()) {
            assert(mv[k as int] == user@);
            member = true;
        }
        k = k + 1;
    }
    assert(member == mv.contains(user@));
    let g = group.as_str();
    let mut out = if member {
        ". Your account is in the ".to_owned()
    } else {
        ". Your account is not in the ".to_owned()
    };
    push_str(&mut out, g);
    if member {
        push_str(
            &mut out,
            " group, but this session started before it was added — log out and back in",
        );
    } else {
        push_str(&mut out, " group — run `sudo usermod -aG ");
        push_str(&mut out, g);
        push_str(&mut out, " ");
        push_str(&mut out, user.as_str());
        push_str(&mut out, "`, then log out and back in");
    }
    Some(out)
}

// ---------------------------------------------------------------------------------------------
// Laws
// ---------------------------------------------------------------------------------------------

/// A saved config's file never leaves the configs directory: a name that is accepted holds no
/// path separator or NUL, does not start with a dot, and is not blank.
pub proof fn a_saved_config_stays_in_its_directory(name: Seq<char>)
    requires
        config_error(bare_config(name)) is None,
    ensures
        !name.contains('/'),
        !name.contains('\\'),
        !name.contains('\0'),
        name.len() > 0 && name[0] != '.',
{
    crate::config::bad_name_is_blank_separator_or_hidden(name);
    crate::text::lemma_trim_empty_iff(name);
}

/// A tail that started partway into a file begins right after a line break of what was read,
/// so it never starts mid-line; and nothing is dropped when the whole file was read.
pub proof fn a_tail_never_starts_mid_line(text: Seq<char>, truncated: bool)
    ensures
        truncated && text.contains('\n') ==> {
            let t = tail_of(text, truncated);
            &&& t.len() < text.len()
            &&& text[text.len() - t.len() - 1] == '\n'
            &&& text.skip(text.len() - t.len()) == t
        },
        !truncated ==> tail_of(text, truncated) == text,
{
    lemma_find_char(text, '\n');
}

} // verus!
