//! Filesystem and socket locations. The GUI and the daemon have to agree on every one of them.
//!
//! Each location can be overridden from the environment, which is how the daemon runs
//! unprivileged during development; the caller reads the variable and hands its value in, along
//! with whether this is Windows.

use crate::config::opt_view;
use crate::text::{copy_str, push_char, push_str};
use directories::ProjectDirs;
use vstd::prelude::*;
use vstd::string::*;

verus! {

/// The project's identity as the platform's directory conventions know it: the reverse-domain
/// qualifier, the organization and the application that [`config_dir`] hands to
/// `ProjectDirs::from`.
pub const QUALIFIER: &'static str = "dev";

/// See [`QUALIFIER`].
pub const ORGANIZATION: &'static str = "blkbstr";

/// See [`QUALIFIER`].
pub const APPLICATION: &'static str = "blkbstr";

#[verifier::external_type_specification]
#[verifier::external_body]
pub struct ExProjectDirs(directories::ProjectDirs);

/// Whether `s` ends with `suffix`.
pub open spec fn ends_with(s: Seq<char>, suffix: Seq<char>) -> bool {
    suffix.len() <= s.len() && s.skip(s.len() - suffix.len()) == suffix
}

/// A word of a project's identity that `directories` uses as it stands: non-empty, lower-case
/// ASCII letters and digits. (It lower-cases the application and drops its spaces on Linux, and
/// replaces spaces on macOS; such a word has nothing to change.)
pub open spec fn plain_identity_word(w: Seq<char>) -> bool {
    w.len() > 0 && forall|i: int|
        0 <= i < w.len() ==> ('a' <= #[trigger] w[i] && w[i] <= 'z') || ('0' <= w[i] && w[i] <= '9')
}

/// Where `directories` documents a project's per-user config directory, as the end of the path:
/// `<base>/<application>` on Linux and the BSDs (`$XDG_CONFIG_HOME`, else `$HOME/.config`),
/// `<base>/<qualifier>.<organization>.<application>` on macOS (`$HOME/Library/Application
/// Support`), and `<base>\<organization>\<application>\config` on Windows (the roaming
/// application data folder; what joins it to the base depends on how the base ends, so only the
/// part after it is stated). Which one holds is the build target's; the base is the machine's.
pub open spec fn project_config_dir(
    p: Seq<char>,
    qualifier: Seq<char>,
    organization: Seq<char>,
    application: Seq<char>,
) -> bool {
    ||| ends_with(p, "/"@ + application)
    ||| ends_with(p, "/"@ + qualifier + "."@ + organization + "."@ + application)
    ||| ends_with(p, organization + "\\"@ + application + "\\config"@)
}

/// This project's config root, as [`project_config_dir`] lays it out for [`QUALIFIER`],
/// [`ORGANIZATION`] and [`APPLICATION`].
pub open spec fn is_config_root(p: Seq<char>) -> bool {
    project_config_dir(p, QUALIFIER@, ORGANIZATION@, APPLICATION@)
}

/// What `directories::ProjectDirs::config_dir` holds for `dirs`, as text.
pub uninterp spec fn config_dir_text(dirs: ProjectDirs) -> Seq<char>;

/// `directories::ProjectDirs::from`: the project's standard directories, computed from the
/// operating system's conventions and the state of its home directory at the time of the call.
/// Whether there is an outcome depends on the machine, so that is not stated. Of an outcome, for
/// identity words that the crate uses unchanged, this states where its config directory ends, as
/// the crate documents it per platform (`lin.rs`, `mac.rs`, `win.rs` build it by `Path::join`,
/// which puts a separator between the base and the project's part). The base itself, from the
/// environment or the operating system, is not stated.
#[verifier::external_body]
fn project_dirs(qualifier: &str, organization: &str, application: &str) -> (r: Option<ProjectDirs>)
    ensures
        plain_identity_word(qualifier@) && plain_identity_word(organization@)
            && plain_identity_word(application@) ==> (r matches Some(d) ==> project_config_dir(
            config_dir_text(d),
            qualifier@,
            organization@,
            application@,
        )),
{
    ProjectDirs::from(qualifier, organization, application)
}

/// `directories::ProjectDirs::config_dir`: the project's per-user config directory, as text.
/// A part of the path that is not valid Unicode is replaced by U+FFFD; the ASCII end of the path
/// that [`project_config_dir`] speaks of comes through unchanged.
#[verifier::external_body]
fn config_dir_of(dirs: &ProjectDirs) -> (r: String)
    ensures
        r@ == config_dir_text(*dirs),
{
    dirs.config_dir().to_string_lossy().into_owned()
}

proof fn lemma_identity_words()
    ensures
        plain_identity_word(QUALIFIER@),
        plain_identity_word(ORGANIZATION@),
        plain_identity_word(APPLICATION@),
{
    reveal_strlit("dev");
    reveal_strlit("blkbstr");
    assert(plain_identity_word("dev"@)) by {
        assert forall|i: int| 0 <= i < 3 implies ('a' <= #[trigger] "dev"@[i] && "dev"@[i] <= 'z')
            || ('0' <= "dev"@[i] && "dev"@[i] <= '9') by {
            if i == 0 {
            } else if i == 1 {
            } else {
            }
        }
    }
    assert(plain_identity_word("blkbstr"@)) by {
        assert forall|i: int| 0 <= i < 7 implies ('a' <= #[trigger] "blkbstr"@[i] && "blkbstr"@[i]
            <= 'z') || ('0' <= "blkbstr"@[i] && "blkbstr"@[i] <= '9') by {
            if i == 0 {
            } else if i == 1 {
            } else if i == 2 {
            } else if i == 3 {
            } else if i == 4 {
            } else if i == 5 {
            } else {
            }
        }
    }
}

/// A location: `custom` when the environment sets one, else the platform's default.
pub open spec fn chosen(custom: Option<Seq<char>>, windows: bool, on_windows: Seq<char>, elsewhere: Seq<char>) -> Seq<char> {
    match custom {
        Some(c) => c,
        None => if windows {
            on_windows
        } else {
            elsewhere
        },
    }
}

fn pick_location(custom: Option<String>, windows: bool, on_windows: &str, elsewhere: &str) -> (r: String)
    ensures
        r@ == chosen(opt_view(custom), windows, on_windows@, elsewhere@),
{
    match custom {
        Some(c) => c,
        None => if windows {
            copy_str(on_windows)
        } else {
            copy_str(elsewhere)
        },
    }
}

/// Whether the socket is an abstract name (a named pipe, on Windows) rather than a file.
pub fn socket_is_namespaced(windows: bool) -> (r: bool)
    ensures
        r == windows,
{
    windows
}

/// The daemon's socket. The default on Unix lives under `/run` and needs root to create.
pub fn socket_name(custom: Option<String>, windows: bool) -> (r: String)
    ensures
        r@ == chosen(opt_view(custom), windows, "blkbstrd.sock"@, "/run/blkbstr/blkbstrd.sock"@),
{
    pick_location(custom, windows, "blkbstrd.sock", "/run/blkbstr/blkbstrd.sock")
}

/// Daemon state that has to outlive a reboot — the config to bring back up on boot. Root-owned:
/// it decides what runs as root, so it is not writable by the GUI's user.
pub fn state_dir(custom: Option<String>, windows: bool) -> (r: String)
    ensures
        r@ == chosen(opt_view(custom), windows, "C:\\ProgramData\\blkbstr\\state"@, "/var/lib/blkbstr"@),
{
    pick_location(custom, windows, "C:\\ProgramData\\blkbstr\\state", "/var/lib/blkbstr")
}

/// Runtime scratch — the rendered parameter file and the engine pidfile. Cleared by the OS on
/// reboot, unlike the state directory.
pub fn runtime_dir(custom: Option<String>, windows: bool) -> (r: String)
    ensures
        r@ == chosen(opt_view(custom), windows, "C:\\ProgramData\\blkbstr\\run"@, "/run/blkbstr"@),
{
    pick_location(custom, windows, "C:\\ProgramData\\blkbstr\\run", "/run/blkbstr")
}

/// Where the daemon writes rotating logs. System-wide: the daemon is a service, not a user
/// process, and the GUI tails these files read-only.
pub fn log_dir(custom: Option<String>, windows: bool) -> (r: String)
    ensures
        r@ == chosen(opt_view(custom), windows, "C:\\ProgramData\\blkbstr\\logs"@, "/var/log/blkbstr"@),
{
    pick_location(custom, windows, "C:\\ProgramData\\blkbstr\\logs", "/var/log/blkbstr")
}

pub open spec fn is_separator(c: char, windows: bool) -> bool {
    c == '/' || (windows && c == '\\')
}

/// `name`, a plain relative name, inside `dir`: separated by the platform's separator unless
/// `dir` is empty or already ends in one.
pub open spec fn joined(dir: Seq<char>, name: Seq<char>, windows: bool) -> Seq<char> {
    if dir.len() == 0 || is_separator(dir.last(), windows) {
        dir + name
    } else {
        dir + seq![if windows {
            '\\'
        } else {
            '/'
        }] + name
    }
}

pub fn join_path(dir: &str, name: &str, windows: bool) -> (r: String)
    ensures
        r@ == joined(dir@, name@, windows),
{
    let n = dir.unicode_len();
    let mut r = copy_str(dir);
    if !(n == 0 || dir.get_char(n - 1) == '/' || (windows && dir.get_char(n - 1) == '\\')) {
        push_char(&mut r, if windows {
            '\\'
        } else {
            '/'
        });
    }
    push_str(&mut r, name);
    r
}

/// Per-user config root, as the platform's conventions place it for [`QUALIFIER`],
/// [`ORGANIZATION`] and [`APPLICATION`]. `None` only when the platform has no home directory to
/// speak of.
pub fn config_dir() -> (r: Option<String>)
    ensures
        r matches Some(p) ==> is_config_root(p@),
{
    proof {
        lemma_identity_words();
    }
    match project_dirs(QUALIFIER, ORGANIZATION, APPLICATION) {
        Some(dirs) => Some(config_dir_of(&dirs)),
        None => None,
    }
}

/// `child` inside the config root, when there is one.
pub open spec fn under_config(root: Option<Seq<char>>, child: Seq<char>, windows: bool) -> Option<Seq<char>> {
    match root {
        Some(d) => Some(joined(d, child, windows)),
        None => None,
    }
}

fn child_of(root: Option<String>, child: &str, windows: bool) -> (r: Option<String>)
    ensures
        opt_view(r) == under_config(opt_view(root), child@, windows),
{
    match root {
        Some(d) => Some(join_path(d.as_str(), child, windows)),
        None => None,
    }
}

/// Saved named configs, one JSON file per config, under the config root `root`.
pub fn configs_dir_in(root: Option<String>, windows: bool) -> (r: Option<String>)
    ensures
        opt_view(r) == under_config(opt_view(root), "configs"@, windows),
{
    child_of(root, "configs", windows)
}

/// Backups taken before importing or overwriting an existing zapret2 installation's config,
/// under the config root `root`.
pub fn backups_dir_in(root: Option<String>, windows: bool) -> (r: Option<String>)
    ensures
        opt_view(r) == under_config(opt_view(root), "backups"@, windows),
{
    child_of(root, "backups", windows)
}

/// Saved named configs under this user's config root.
pub fn configs_dir(windows: bool) -> (r: Option<String>)
    ensures
        r matches Some(p) ==> exists|root: Seq<char>|
            is_config_root(root) && p@ == #[trigger] joined(root, "configs"@, windows),
{
    let root = config_dir();
    let ghost rv = opt_view(root);
    let r = configs_dir_in(root, windows);
    proof {
        if let Some(d) = rv {
            assert(opt_view(r) == Some(joined(d, "configs"@, windows)));
        }
    }
    r
}

/// Backups under this user's config root.
pub fn backups_dir(windows: bool) -> (r: Option<String>)
    ensures
        r matches Some(p) ==> exists|root: Seq<char>|
            is_config_root(root) && p@ == #[trigger] joined(root, "backups"@, windows),
{
    let root = config_dir();
    let ghost rv = opt_view(root);
    let r = backups_dir_in(root, windows);
    proof {
        if let Some(d) = rv {
            assert(opt_view(r) == Some(joined(d, "backups"@, windows)));
        }
    }
    r
}

} // verus!
