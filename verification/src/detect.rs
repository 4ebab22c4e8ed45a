//! What is already on this machine, before Blockbuster installs anything.
//!
//! Onboarding has to say what is missing while there is still no daemon to ask. Every probe is
//! best-effort: "not found" is the normal first-run answer, not an error. The probing itself —
//! looking at files, running a binary for its version — is the caller's; what its output means is
//! read here.

use crate::config::opt_view;
use crate::registry::Platform;
use crate::text::{
    copy_str, is_prefix, lines, lines_of, parse_u32, parse_u32_str, split_on, split_str,
    starts_with, str_eq, trim, trim_str, words, words_of,
};
use vstd::prelude::*;
use vstd::string::*;

verus! {

pub struct Tool {
    pub path: String,
    /// First line of the tool's own version output, verbatim — parsing it further is the caller's
    /// problem, and showing it unedited is what makes a bug report useful.
    pub version: Option<String>,
}

#[derive(Debug, Clone, Copy, PartialEq, Eq, Structural)]
pub enum LuaFlavour {
    LuaJit,
    Puc,
}

pub struct LuaRuntime {
    pub tool: Tool,
    pub flavour: LuaFlavour,
    pub major: u32,
    pub minor: u32,
    /// zapret2's attacks are Lua, not C. Below LuaJIT 2.1 or PUC 5.3 the engine starts and then
    /// fails to load them, which reads as "nothing happened" — so this is checked before any of
    /// the rest is offered.
    pub supported: bool,
}

#[derive(Debug, Clone, Copy, PartialEq, Eq, Structural)]
pub enum PackageManager {
    Pacman,
    Apt,
    Dnf,
    Zypper,
    Apk,
    Xbps,
    Portage,
}

pub struct Distro {
    pub id: String,
    pub pretty_name: Option<String>,
    pub package_manager: Option<PackageManager>,
}

/// Everything onboarding needs to decide what to do next.
pub struct Environment {
    pub platform: Option<Platform>,
    pub engine: Option<Tool>,
    pub lua: Option<LuaRuntime>,
    pub nftables: Option<Tool>,
    pub distro: Option<Distro>,
    /// A zapret2 tree already on the machine — something to import from rather than write over.
    pub existing_install: Option<String>,
}

// ---------------------------------------------------------------------------------------------
// Where to look
// ---------------------------------------------------------------------------------------------

pub open spec fn engine_dir_list() -> Seq<Seq<char>> {
    seq!["/opt/zapret2"@, "/usr/local/bin"@, "/usr/bin"@, "/usr/local/libexec"@]
}

/// The usual install locations of the engine, searched after the directory of the running binary
/// and before PATH.
pub fn engine_dirs() -> (r: Vec<&'static str>)
    ensures
        r@.map_values(|s: &str| s@) == engine_dir_list(),
{
    let r = vec!["/opt/zapret2", "/usr/local/bin", "/usr/bin", "/usr/local/libexec"];
    assert(r@.map_values(|s: &str| s@) =~= engine_dir_list());
    r
}

pub open spec fn lua_dir_list() -> Seq<Seq<char>> {
    seq![
        "/opt/zapret2/lua"@,
        "/usr/share/zapret2/lua"@,
        "/usr/local/share/zapret2/lua"@,
        "/usr/lib/zapret2/lua"@,
    ]
}

/// Where zapret2's Lua library is looked for, after `lua` and `../lua` beside the running binary.
/// Distribution packages split the binary from the scripts, so this is searched independently of
/// the engine.
pub fn lua_dirs() -> (r: Vec<&'static str>)
    ensures
        r@.map_values(|s: &str| s@) == lua_dir_list(),
{
    let r = vec![
        "/opt/zapret2/lua",
        "/usr/share/zapret2/lua",
        "/usr/local/share/zapret2/lua",
        "/usr/lib/zapret2/lua",
    ];
    assert(r@.map_values(|s: &str| s@) =~= lua_dir_list());
    r
}

pub open spec fn lua_binary_list() -> Seq<Seq<char>> {
    seq!["luajit"@, "lua"@, "lua5.4"@, "lua5.3"@]
}

/// The Lua interpreters looked for on PATH, in order.
pub fn lua_binaries() -> (r: Vec<&'static str>)
    ensures
        r@.map_values(|s: &str| s@) == lua_binary_list(),
{
    let r = vec!["luajit", "lua", "lua5.4", "lua5.3"];
    assert(r@.map_values(|s: &str| s@) =~= lua_binary_list());
    r
}

pub open spec fn install_dir_list() -> Seq<Seq<char>> {
    seq!["/opt/zapret2"@, "/usr/local/zapret2"@]
}

/// Where an existing zapret2 installation is looked for. It is identified by its `config` file,
/// because that is the thing worth importing.
pub fn install_dirs() -> (r: Vec<&'static str>)
    ensures
        r@.map_values(|s: &str| s@) == install_dir_list(),
{
    let r = vec!["/opt/zapret2", "/usr/local/zapret2"];
    assert(r@.map_values(|s: &str| s@) =~= install_dir_list());
    r
}

// ---------------------------------------------------------------------------------------------
// Lua
// ---------------------------------------------------------------------------------------------

pub open spec fn lua_script_names() -> Seq<Seq<char>> {
    seq!["zapret-lib.lua"@, "zapret-antidpi.lua"@, "zapret-auto.lua"@]
}

/// zapret2's own Lua library, in the order its init script loads it. `zapret-lib.lua` defines the
/// primitives the others build on, so the order is not decorative.
pub fn lua_scripts() -> (r: Vec<&'static str>)
    ensures
        r@.map_values(|s: &str| s@) == lua_script_names(),
{
    let r = vec!["zapret-lib.lua", "zapret-antidpi.lua", "zapret-auto.lua"];
    assert(r@.map_values(|s: &str| s@) =~= lua_script_names());
    r
}

/// The version that `line` reports, if it is a Lua banner: `LuaJIT 2.1.1785763465 -- ...` or
/// `Lua 5.4.8  Copyright ...`. The first word after the name, split at dots, gives major and
/// minor.
pub open spec fn lua_version_of(line: Seq<char>) -> Option<(LuaFlavour, u32, u32)> {
    let (flavour, rest) = if is_prefix("LuaJIT "@, line) {
        (Some(LuaFlavour::LuaJit), line.skip(7))
    } else if is_prefix("Lua "@, line) {
        (Some(LuaFlavour::Puc), line.skip(4))
    } else {
        (None, line)
    };
    match flavour {
        None => None,
        Some(f) => {
            let ws = words(rest);
            if ws.len() == 0 {
                None
            } else {
                let parts = split_on(ws[0], '.');
                if parts.len() < 2 {
                    None
                } else {
                    match (parse_u32(parts[0]), parse_u32(parts[1])) {
                        (Some(major), Some(minor)) => Some((f, major, minor)),
                        _ => None,
                    }
                }
            }
        },
    }
}

pub fn parse_lua_version(line: &str) -> (r: Option<(LuaFlavour, u32, u32)>)
    ensures
        r == lua_version_of(line@),
{
    let n = line.unicode_len();
    proof {
        reveal_strlit("LuaJIT ");
        reveal_strlit("Lua ");
    }
    let (flavour, rest) = if starts_with(line, "LuaJIT ") {
        (LuaFlavour::LuaJit, line.substring_char(7, n))
    } else if starts_with(line, "Lua ") {
        (LuaFlavour::Puc, line.substring_char(4, n))
    } else {
        return None;
    };
    assert(rest@ =~= if flavour == LuaFlavour::LuaJit {
        line@.skip(7)
    } else {
        line@.skip(4)
    });
    let ws = words_of(rest);
    if ws.len() == 0 {
        return None;
    }
    let parts = split_str(ws[0].as_str(), '.');
    if parts.len() < 2 {
        return None;
    }
    match (parse_u32_str(parts[0].as_str()), parse_u32_str(parts[1].as_str())) {
        (Some(major), Some(minor)) => Some((flavour, major, minor)),
        _ => None,
    }
}

/// Whether zapret2 can use this Lua: LuaJIT from 2.1, PUC Lua from 5.3.
pub open spec fn lua_ok(flavour: LuaFlavour, major: u32, minor: u32) -> bool {
    match flavour {
        LuaFlavour::LuaJit => major > 2 || (major == 2 && minor >= 1),
        LuaFlavour::Puc => major > 5 || (major == 5 && minor >= 3),
    }
}

pub fn lua_supported(flavour: LuaFlavour, major: u32, minor: u32) -> (r: bool)
    ensures
        r == lua_ok(flavour, major, minor),
{
    match flavour {
        LuaFlavour::LuaJit => major > 2 || (major == 2 && minor >= 1),
        LuaFlavour::Puc => major > 5 || (major == 5 && minor >= 3),
    }
}

/// The runtime found at `path`, whose version banner is `line`, when that banner is Lua's.
pub fn lua_runtime_from(path: String, line: String) -> (r: Option<LuaRuntime>)
    ensures
        match r {
            Some(l) => lua_version_of(line@) == Some((l.flavour, l.major, l.minor)) && l.supported
                == lua_ok(l.flavour, l.major, l.minor) && l.tool.path@ == path@ && opt_view(
                l.tool.version,
            ) == Some(line@),
            None => lua_version_of(line@) is None,
        },
{
    match parse_lua_version(line.as_str()) {
        Some((flavour, major, minor)) => Some(
            LuaRuntime {
                tool: Tool { path, version: Some(line) },
                flavour,
                major,
                minor,
                supported: lua_supported(flavour, major, minor),
            },
        ),
        None => None,
    }
}

pub open spec fn first_supported(found: Seq<LuaRuntime>) -> int
    decreases found.len(),
{
    if found.len() == 0 {
        -1
    } else if found[0].supported {
        0
    } else {
        let rest = first_supported(found.skip(1));
        if rest < 0 {
            -1
        } else {
            rest + 1
        }
    }
}

proof fn lemma_first_supported(found: Seq<LuaRuntime>)
    ensures
        -1 <= first_supported(found) < found.len(),
        first_supported(found) >= 0 ==> found[first_supported(found)].supported && forall|j: int|
            0 <= j < first_supported(found) ==> !(#[trigger] found[j]).supported,
        first_supported(found) < 0 ==> forall|j: int| 0 <= j < found.len() ==> !(#[trigger] found[j]).supported,
    decreases found.len(),
{
    if found.len() > 0 {
        lemma_first_supported(found.skip(1));
        assert forall|j: int| 1 <= j < found.len() implies found[j] == found.skip(1)[j - 1] by {}
    }
}

/// Which of the runtimes found, in the order they were looked for, to report: the first
/// supported one, else the first. A box with both `lua` 5.1 and `lua5.4` installed has a working
/// setup, and reporting the 5.1 would send the user off installing something they already have.
pub open spec fn best_lua_index(found: Seq<LuaRuntime>) -> int {
    if first_supported(found) >= 0 {
        first_supported(found)
    } else if found.len() > 0 {
        0
    } else {
        -1
    }
}

pub fn pick_lua(found: Vec<LuaRuntime>) -> (r: Option<LuaRuntime>)
    ensures
        match r {
            Some(l) => best_lua_index(found@) >= 0 && l == found@[best_lua_index(found@)],
            None => best_lua_index(found@) < 0,
        },
{
    proof {
        lemma_first_supported(found@);
    }
    let n = found.len();
    let mut i: usize = 0;
    while i < n
        invariant
            n == found@.len(),
            i <= n,
            forall|j: int| 0 <= j < i ==> !(#[trigger] found@[j]).supported,
            -1 <= first_supported(found@) < n,
            first_supported(found@) >= 0 ==> found@[first_supported(found@)].supported && forall|j: int|
                0 <= j < first_supported(found@) ==> !(#[trigger] found@[j]).supported,
            first_supported(found@) < 0 ==> forall|j: int|
                0 <= j < found@.len() ==> !(#[trigger] found@[j]).supported,
        decreases n - i,
    {
        if found[i].supported {
            assert(first_supported(found@) == i);
            let mut found = found;
            return Some(found.remove(i));
        }
        i = i + 1;
    }
    if n == 0 {
        None
    } else {
        let mut found = found;
        Some(found.remove(0))
    }
}

// ---------------------------------------------------------------------------------------------
// Version banners
// ---------------------------------------------------------------------------------------------

pub open spec fn first_nonblank(ls: Seq<Seq<char>>) -> Option<Seq<char>>
    decreases ls.len(),
{
    if ls.len() == 0 {
        None
    } else if trim(ls[0]).len() > 0 {
        Some(trim(ls[0]))
    } else {
        first_nonblank(ls.skip(1))
    }
}

/// A tool's version: the first non-blank line of its standard output, trimmed, else of its
/// standard error — LuaJIT prints its banner on stderr; most everything else uses stdout.
pub open spec fn banner_of(stdout: Seq<char>, stderr: Seq<char>) -> Option<Seq<char>> {
    match first_nonblank(lines(stdout)) {
        Some(l) => Some(l),
        None => first_nonblank(lines(stderr)),
    }
}

fn first_nonblank_line(text: &str) -> (r: Option<String>)
    ensures
        opt_view(r) == first_nonblank(lines(text@)),
{
    let ls = lines_of(text);
    let ghost all = lines(text@);
    let n = ls.len();
    let mut i: usize = 0;
    assert(all.skip(0) =~= all);
    while i < n
        invariant
            n == all.len(),
            all == lines(text@),
            crate::text::views(ls@) == all,
            i <= n,
            first_nonblank(all.skip(i as int)) == first_nonblank(all),
        decreases n - i,
    {
        let t = trim_str(ls[i].as_str());
        assert(all.skip(i as int)[0] == all[i as int]);
        if !t.as_str().is_empty() {
            assert(first_nonblank(all.skip(i as int)) == Some(t@));
            return Some(t);
        }
        assert(all.skip(i as int).skip(1) =~= all.skip(i + 1));
        i = i + 1;
    }
    assert(all.skip(n as int) =~= Seq::<Seq<char>>::empty());
    None
}

pub fn version_banner(stdout: &str, stderr: &str) -> (r: Option<String>)
    ensures
        opt_view(r) == banner_of(stdout@, stderr@),
{
    match first_nonblank_line(stdout) {
        Some(l) => Some(l),
        None => first_nonblank_line(stderr),
    }
}

// ---------------------------------------------------------------------------------------------
// Distributions
// ---------------------------------------------------------------------------------------------

/// `s` without any `c` at either end.
pub open spec fn trim_char(s: Seq<char>, c: char) -> Seq<char>
    decreases s.len(),
{
    if s.len() > 0 && s[0] == c {
        trim_char(s.skip(1), c)
    } else if s.len() > 0 && s.last() == c {
        trim_char(s.drop_last(), c)
    } else {
        s
    }
}

/// The value of the first line of the form `key=value`, unquoted, unless it is empty.
pub open spec fn os_release_value(ls: Seq<Seq<char>>, key: Seq<char>) -> Option<Seq<char>>
    decreases ls.len(),
{
    if ls.len() == 0 {
        None
    } else if is_prefix(key + "="@, ls[0]) {
        let v = trim_char(ls[0].skip(key.len() + 1int), '"');
        if v.len() > 0 {
            Some(v)
        } else {
            None
        }
    } else {
        os_release_value(ls.skip(1), key)
    }
}

fn trim_quotes(s: &str) -> (r: String)
    ensures
        r@ == trim_char(s@, '"'),
{
    let n = s.unicode_len();
    let mut a: usize = 0;
    let mut b: usize = n;
    assert(s@.subrange(0, n as int) =~= s@);
    while a < b && (s.get_char(a) == '"' || s.get_char(b - 1) == '"')
        invariant
            n == s@.len(),
            a <= b <= n,
            trim_char(s@.subrange(a as int, b as int), '"') == trim_char(s@, '"'),
        decreases b - a,
    {
        let ghost t = s@.subrange(a as int, b as int);
        if s.get_char(a) == '"' {
            assert(t.skip(1) =~= s@.subrange(a + 1, b as int));
            a = a + 1;
        } else {
            assert(t.drop_last() =~= s@.subrange(a as int, b - 1));
            b = b - 1;
        }
    }
    s.substring_char(a, b).to_owned()
}

fn value_of(ls: &Vec<String>, key: &str) -> (r: Option<String>)
    ensures
        opt_view(r) == os_release_value(crate::text::views(ls@), key@),
{
    let ghost all = crate::text::views(ls@);
    let mut prefix = copy_str(key);
    crate::text::push_char(&mut prefix, '=');
    proof {
        reveal_strlit("=");
        assert(prefix@ =~= key@ + "="@);
    }
    let n = ls.len();
    let mut i: usize = 0;
    assert(all.skip(0) =~= all);
    while i < n
        invariant
            n == all.len(),
            all == crate::text::views(ls@),
            prefix@ == key@ + "="@,
            prefix@.len() == key@.len() + 1,
            i <= n,
            os_release_value(all.skip(i as int), key@) == os_release_value(all, key@),
        decreases n - i,
    {
        let l = ls[i].as_str();
        assert(all.skip(i as int)[0] == l@);
        if starts_with(l, prefix.as_str()) {
            let m = l.unicode_len();
            let v = trim_quotes(l.substring_char(prefix.as_str().unicode_len(), m));
            assert(l@.subrange(prefix@.len() as int, m as int) =~= l@.skip(key@.len() + 1int));
            if v.as_str().is_empty() {
                return None;
            }
            return Some(v);
        }
        assert(all.skip(i as int).skip(1) =~= all.skip(i + 1));
        i = i + 1;
    }
    assert(all.skip(n as int) =~= Seq::<Seq<char>>::empty());
    None
}

/// `ID`, `ID_LIKE` and `PRETTY_NAME` from the text of `/etc/os-release`.
pub fn parse_os_release(text: &str) -> (r: (Option<String>, Option<String>, Option<String>))
    ensures
        opt_view(r.0) == os_release_value(lines(text@), "ID"@),
        opt_view(r.1) == os_release_value(lines(text@), "ID_LIKE"@),
        opt_view(r.2) == os_release_value(lines(text@), "PRETTY_NAME"@),
{
    let ls = lines_of(text);
    (value_of(&ls, "ID"), value_of(&ls, "ID_LIKE"), value_of(&ls, "PRETTY_NAME"))
}

/// The package manager a distribution id names, if it is one this knows.
pub open spec fn manager_named(name: Seq<char>) -> Option<PackageManager> {
    if name == "arch"@ || name == "archlinux"@ {
        Some(PackageManager::Pacman)
    } else if name == "debian"@ || name == "ubuntu"@ {
        Some(PackageManager::Apt)
    } else if name == "fedora"@ || name == "rhel"@ || name == "centos"@ {
        Some(PackageManager::Dnf)
    } else if name == "opensuse"@ || name == "suse"@ || name == "sles"@ {
        Some(PackageManager::Zypper)
    } else if name == "alpine"@ {
        Some(PackageManager::Apk)
    } else if name == "void"@ {
        Some(PackageManager::Xbps)
    } else if name == "gentoo"@ {
        Some(PackageManager::Portage)
    } else {
        None
    }
}

pub open spec fn first_manager(names: Seq<Seq<char>>) -> Option<PackageManager>
    decreases names.len(),
{
    if names.len() == 0 {
        None
    } else if manager_named(names[0]) is Some {
        manager_named(names[0])
    } else {
        first_manager(names.skip(1))
    }
}

/// From the distro id, never from which binaries happen to exist: a machine can carry a stray
/// `apt-get`, and an Arch box that answers "apt" gets told to install packages that are not
/// there. `ID_LIKE` names the parents, which is how derivatives are covered without listing them
/// all.
pub open spec fn manager_for(id: Seq<char>, id_like: Option<Seq<char>>) -> Option<PackageManager> {
    first_manager(
        seq![id] + match id_like {
            Some(l) => words(l),
            None => Seq::empty(),
        },
    )
}

fn manager_of(name: &str) -> (r: Option<PackageManager>)
    ensures
        r == manager_named(name@),
{
    if str_eq(name, "arch") || str_eq(name, "archlinux") {
        Some(PackageManager::Pacman)
    } else if str_eq(name, "debian") || str_eq(name, "ubuntu") {
        Some(PackageManager::Apt)
    } else if str_eq(name, "fedora") || str_eq(name, "rhel") || str_eq(name, "centos") {
        Some(PackageManager::Dnf)
    } else if str_eq(name, "opensuse") || str_eq(name, "suse") || str_eq(name, "sles") {
        Some(PackageManager::Zypper)
    } else if str_eq(name, "alpine") {
        Some(PackageManager::Apk)
    } else if str_eq(name, "void") {
        Some(PackageManager::Xbps)
    } else if str_eq(name, "gentoo") {
        Some(PackageManager::Portage)
    } else {
        None
    }
}

pub fn package_manager_for(id: &str, id_like: Option<&str>) -> (r: Option<PackageManager>)
    ensures
        r == manager_for(
            id@,
            match id_like {
                Some(l) => Some(l@),
                None => None,
            },
        ),
{
    let ghost like = match id_like {
        Some(l) => words(l@),
        None => Seq::<Seq<char>>::empty(),
    };
    let ghost names = seq![id@] + like;
    assert(names.skip(1) =~= like);
    let own = manager_of(id);
    if own.is_some() {
        return own;
    }
    let parents: Vec<String> = match id_like {
        Some(l) => words_of(l),
        None => Vec::new(),
    };
    assert(crate::text::views(parents@) =~= like);
    assert(first_manager(names) == first_manager(like));
    let n = parents.len();
    let mut i: usize = 0;
    assert(like.skip(0) =~= like);
    while i < n
        invariant
            n == like.len(),
            crate::text::views(parents@) == like,
            i <= n,
            first_manager(like.skip(i as int)) == first_manager(like),
            first_manager(like) == manager_for(
                id@,
                match id_like {
                    Some(l) => Some(l@),
                    None => None,
                },
            ),
        decreases n - i,
    {
        assert(like.skip(i as int)[0] == parents@[i as int]@);
        let m = manager_of(parents[i].as_str());
        if m.is_some() {
            return m;
        }
        assert(like.skip(i as int).skip(1) =~= like.skip(i + 1));
        i = i + 1;
    }
    assert(like.skip(n as int) =~= Seq::<Seq<char>>::empty());
    None
}

/// The distribution `/etc/os-release` describes, when it names one.
pub fn distro_from(text: &str) -> (r: Option<Distro>)
    ensures
        match r {
            Some(d) => os_release_value(lines(text@), "ID"@) == Some(d.id@) && opt_view(d.pretty_name)
                == os_release_value(lines(text@), "PRETTY_NAME"@) && d.package_manager == manager_for(
                d.id@,
                os_release_value(lines(text@), "ID_LIKE"@),
            ),
            None => os_release_value(lines(text@), "ID"@) is None,
        },
{
    let (id, id_like, pretty_name) = parse_os_release(text);
    match id {
        Some(id) => {
            let package_manager = match &id_like {
                Some(l) => package_manager_for(id.as_str(), Some(l.as_str())),
                None => package_manager_for(id.as_str(), None),
            };
            Some(Distro { id, pretty_name, package_manager })
        },
        None => None,
    }
}

// ---------------------------------------------------------------------------------------------
// Laws
// ---------------------------------------------------------------------------------------------

/// A distribution this knows by its own id gets its own package manager, whatever it claims to be
/// like; one it does not know is covered by the first parent it names that is known.
pub proof fn derivatives_are_covered_by_their_parent(id: Seq<char>, id_like: Option<Seq<char>>)
    ensures
        manager_named(id) is Some ==> manager_for(id, id_like) == manager_named(id),
        manager_named(id) is None ==> manager_for(id, id_like) == first_manager(
            match id_like {
                Some(l) => words(l),
                None => Seq::empty(),
            },
        ),
{
    let like = match id_like {
        Some(l) => words(l),
        None => Seq::<Seq<char>>::empty(),
    };
    assert((seq![id] + like).skip(1) =~= like);
}

/// A supported runtime is always preferred: the one reported is supported whenever any found
/// one is, and nothing is reported only when nothing was found.
pub proof fn a_supported_lua_is_preferred(found: Seq<LuaRuntime>)
    ensures
        (exists|j: int| 0 <= j < found.len() && (#[trigger] found[j]).supported) ==> best_lua_index(
            found,
        ) >= 0 && found[best_lua_index(found)].supported,
        (best_lua_index(found) < 0) == (found.len() == 0),
{
    lemma_first_supported(found);
}

} // verus!
