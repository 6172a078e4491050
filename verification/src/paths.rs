//! Where the app keeps its files: the config directory and the files in
//! it, derived from the environment the app was started in.

use vstd::prelude::*;

use crate::platform::Platform;
use crate::text::{append_str, chars_of, string_from, string_of};

verus! {

broadcast use vstd::string::group_string_axioms;

/// What the config directory is derived from: `$XDG_CONFIG_HOME`, the
/// home directory and the platform config directory, as far as known.
#[derive(Debug, Clone, Default)]
pub struct PathEnv {
    pub xdg_config_home: Option<String>,
    pub home_dir: Option<String>,
    pub config_dir: Option<String>,
}

/// The user's home directory, from `dirs::home_dir`. It depends on the
/// machine and the environment, so nothing is stated of it.
#[verifier::external_body]
fn system_home_dir() -> Option<String> {
    dirs::home_dir().map(|p| p.to_string_lossy().into_owned())
}

/// The platform config directory, from `dirs::config_dir`. It depends on
/// the machine and the environment, so nothing is stated of it.
#[verifier::external_body]
fn system_config_dir() -> Option<String> {
    dirs::config_dir().map(|p| p.to_string_lossy().into_owned())
}

impl PathEnv {
    /// The path environment of this machine, with `$XDG_CONFIG_HOME` as
    /// read by the caller (`None` when unset).
    pub fn from_system(xdg_config_home: Option<String>) -> (r: PathEnv)
        ensures
            r.xdg_config_home == xdg_config_home,
    {
        PathEnv { xdg_config_home, home_dir: system_home_dir(), config_dir: system_config_dir() }
    }
}

pub open spec fn is_sep(c: char, windows: bool) -> bool {
    c == '/' || (windows && c == '\\')
}

/// A bare Windows drive prefix such as `C:`.
pub open spec fn is_drive(s: Seq<char>) -> bool {
    s.len() == 2 && s[1] == ':' && (('a' <= s[0] && s[0] <= 'z') || ('A' <= s[0] && s[0] <= 'Z'))
}

/// `PathBuf::join` with a relative component: the component is appended,
/// after a separator unless `base` is empty, already ends in one, or (on
/// Windows) is a bare drive prefix.
pub open spec fn join_spec(base: Seq<char>, comp: Seq<char>, windows: bool) -> Seq<char> {
    if base.len() == 0 || is_sep(base.last(), windows) || (windows && is_drive(base)) {
        base + comp
    } else {
        base + seq![if windows { '\\' } else { '/' }] + comp
    }
}

pub fn join(base: &str, comp: &str, platform: Platform) -> (r: String)
    ensures
        r@ == join_spec(base@, comp@, platform == Platform::Windows),
{
    let windows = match platform {
        Platform::Windows => true,
        _ => false,
    };
    let mut out = chars_of(base);
    let n = out.len();
    let bare = n == 0 || {
        let last = out[n - 1];
        last == '/' || (windows && last == '\\')
    } || (windows && n == 2 && out[1] == ':' && (('a' <= out[0] && out[0] <= 'z') || ('A' <= out[0] && out[0] <= 'Z')));
    if !bare {
        out.push(if windows {
            '\\'
        } else {
            '/'
        });
    }
    append_str(&mut out, comp);
    string_of(&out)
}

/// `$XDG_CONFIG_HOME/hyper-revamp` when that variable is set and not empty;
/// otherwise `~/.config/hyper-revamp`, or the platform config directory on
/// Windows (`.` standing in for a directory that is not known).
pub open spec fn cfg_dir_spec(env: PathEnv, platform: Platform) -> Seq<char> {
    let windows = platform == Platform::Windows;
    match env.xdg_config_home {
        Some(x) if x@.len() > 0 => join_spec(x@, "hyper-revamp"@, windows),
        _ => if windows {
            join_spec(
                match env.config_dir {
                    Some(d) => d@,
                    None => "."@,
                },
                "hyper-revamp"@,
                true,
            )
        } else {
            join_spec(
                join_spec(
                    match env.home_dir {
                        Some(h) => h@,
                        None => "."@,
                    },
                    ".config"@,
                    false,
                ),
                "hyper-revamp"@,
                false,
            )
        },
    }
}

pub fn cfg_dir(env: &PathEnv, platform: Platform) -> (r: String)
    ensures
        r@ == cfg_dir_spec(*env, platform),
{
    match &env.xdg_config_home {
        Some(x) => {
            if x.as_str().unicode_len() > 0 {
                return join(x.as_str(), "hyper-revamp", platform);
            }
        },
        None => {},
    }
    match platform {
        Platform::Windows => {
            let base = match &env.config_dir {
                Some(d) => crate::text::copy_string(d),
                None => string_from("."),
            };
            join(base.as_str(), "hyper-revamp", platform)
        },
        _ => {
            let home = match &env.home_dir {
                Some(h) => crate::text::copy_string(h),
                None => string_from("."),
            };
            let config = join(home.as_str(), ".config", platform);
            join(config.as_str(), "hyper-revamp", platform)
        },
    }
}

/// The config file.
pub fn cfg_path(env: &PathEnv, platform: Platform) -> (r: String)
    ensures
        r@ == join_spec(cfg_dir_spec(*env, platform), "hyper-revamp.json"@, platform == Platform::Windows),
{
    let d = cfg_dir(env, platform);
    join(d.as_str(), "hyper-revamp.json", platform)
}

/// The user's theme files.
pub fn themes_dir(env: &PathEnv, platform: Platform) -> (r: String)
    ensures
        r@ == join_spec(cfg_dir_spec(*env, platform), "themes"@, platform == Platform::Windows),
{
    let d = cfg_dir(env, platform);
    join(d.as_str(), "themes", platform)
}

/// Target of the default config's `$schema: "./schema.json"` reference.
pub fn schema_path(env: &PathEnv, platform: Platform) -> (r: String)
    ensures
        r@ == join_spec(cfg_dir_spec(*env, platform), "schema.json"@, platform == Platform::Windows),
{
    let d = cfg_dir(env, platform);
    join(d.as_str(), "schema.json", platform)
}

/// The tabs open at the last clean exit.
pub fn session_state_path(env: &PathEnv, platform: Platform) -> (r: String)
    ensures
        r@ == join_spec(cfg_dir_spec(*env, platform), "session-state.json"@, platform == Platform::Windows),
{
    let d = cfg_dir(env, platform);
    join(d.as_str(), "session-state.json", platform)
}

/// Saved window geometry.
pub fn windows_state_path(env: &PathEnv, platform: Platform) -> (r: String)
    ensures
        r@ == join_spec(cfg_dir_spec(*env, platform), "windows-state.json"@, platform == Platform::Windows),
{
    let d = cfg_dir(env, platform);
    join(d.as_str(), "windows-state.json", platform)
}

/// Bytes a character takes in UTF-8.
pub open spec fn utf8_width(c: char) -> nat {
    if (c as u32) < 0x80 {
        1
    } else if (c as u32) < 0x800 {
        2
    } else if (c as u32) < 0x10000 {
        3
    } else {
        4
    }
}

/// Bytes a string takes in UTF-8.
pub open spec fn utf8_len(s: Seq<char>) -> nat
    decreases s.len(),
{
    if s.len() == 0 {
        0
    } else {
        utf8_len(s.drop_last()) + utf8_width(s.last())
    }
}

fn utf8_len_of(s: &str) -> (r: usize)
    ensures
        r as nat == utf8_len(s@) || (r == usize::MAX && utf8_len(s@) >= usize::MAX),
{
    let cs = chars_of(s);
    let mut total: usize = 0;
    let mut i: usize = 0;
    while i < cs.len()
        invariant
            0 <= i <= cs@.len(),
            cs@ == s@,
            total as nat == utf8_len(cs@.subrange(0, i as int)) || (total == usize::MAX && utf8_len(cs@.subrange(0, i as int)) >= usize::MAX),
        decreases cs@.len() - i,
    {
        let c = cs[i];
        let w: usize = if (c as u32) < 0x80 {
            1
        } else if (c as u32) < 0x800 {
            2
        } else if (c as u32) < 0x10000 {
            3
        } else {
            4
        };
        let ghost pre = cs@.subrange(0, i as int);
        let ghost cur = cs@.subrange(0, i + 1);
        assert(cur.drop_last() =~= pre);
        assert(cur.last() == c);
        total = total.saturating_add(w);
        i = i + 1;
    }
    assert(cs@.subrange(0, i as int) =~= cs@);
    total
}

pub open spec fn hex_digit(d: nat) -> char {
    if d < 10 {
        ((48 + d) as u8) as char
    } else {
        ((87 + d) as u8) as char
    }
}

/// The lowest `w` hexadecimal digits of `n`, lower case, most significant
/// first (`{:0w$x}` for a value that fits).
pub open spec fn hex_width(n: nat, w: nat) -> Seq<char>
    decreases w,
{
    if w == 0 {
        Seq::empty()
    } else {
        hex_width(n / 16, (w - 1) as nat).push(hex_digit(n % 16))
    }
}

fn hex_digits(n: u64, w: usize) -> (r: Vec<char>)
    ensures
        r@ == hex_width(n as nat, w as nat),
    decreases w,
{
    if w == 0 {
        Vec::new()
    } else {
        let mut v = hex_digits(n / 16, w - 1);
        let d = n % 16;
        let c: char = if d < 10 {
            ((48 + d) as u8) as char
        } else {
            ((87 + d) as u8) as char
        };
        v.push(c);
        v
    }
}

/// The single-instance socket: `hyper-revamp.sock` in the config directory
/// while that path stays under 100 bytes (the Unix socket path limit is
/// about 104), else `hyper-revamp-<hash>.sock` in the temp directory, keyed
/// by a hash of the config directory so distinct configs get distinct
/// instances.
pub fn socket_path(env: &PathEnv, platform: Platform, temp_dir: &str, cfg_dir_hash: u64) -> (r: String)
    ensures
        ({
            let windows = platform == Platform::Windows;
            let preferred = join_spec(cfg_dir_spec(*env, platform), "hyper-revamp.sock"@, windows);
            r@ == if utf8_len(preferred) < 100 {
                preferred
            } else {
                join_spec(temp_dir@, "hyper-revamp-"@ + hex_width(cfg_dir_hash as nat, 16) + ".sock"@, windows)
            }
        }),
{
    let d = cfg_dir(env, platform);
    let preferred = join(d.as_str(), "hyper-revamp.sock", platform);
    if utf8_len_of(preferred.as_str()) < 100 {
        return preferred;
    }
    let mut name = chars_of("hyper-revamp-");
    let hex = hex_digits(cfg_dir_hash, 16);
    crate::text::append_chars(&mut name, &hex);
    append_str(&mut name, ".sock");
    let file = string_of(&name);
    join(temp_dir, file.as_str(), platform)
}

/// Whether a change the file watcher saw concerns the configuration: the
/// config file itself (by file name) or anything in a `themes` directory
/// (by the last component of the changed path's parent).
pub fn watch_relevant(file_name: Option<&str>, parent_name: Option<&str>) -> (r: bool)
    ensures
        r == ((file_name matches Some(f) && f@ == "hyper-revamp.json"@) || (parent_name matches Some(p) && p@
            == "themes"@)),
{
    let by_name = match file_name {
        Some(f) => crate::text::str_eq(f, "hyper-revamp.json"),
        None => false,
    };
    by_name || match parent_name {
        Some(p) => crate::text::str_eq(p, "themes"),
        None => false,
    }
}

} // verus!
