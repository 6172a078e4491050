//! `ssh://` URLs handed to the app by the OS, turned into the ssh command
//! typed into a fresh tab.

use vstd::prelude::*;

use crate::keymap::strip_prefix;
use crate::text::{
    copy_string, str_eq, all_digits, append_chars, append_str, char_is_ascii_alnum, char_is_digit, chars_of,
    is_ascii_alnum, starts_with, string_of, sub_chars,
};

verus! {

/// `s` with every trailing `c` removed (`str::trim_end_matches(c)`).
pub open spec fn strip_trailing(s: Seq<char>, c: char) -> Seq<char>
    decreases s.len(),
{
    if s.len() > 0 && s.last() == c {
        strip_trailing(s.drop_last(), c)
    } else {
        s
    }
}

pub fn strip_trailing_chars(s: &[char], c: char) -> (r: Vec<char>)
    ensures
        r@ == strip_trailing(s@, c),
{
    let mut j: usize = s.len();
    assert(s@.subrange(0, s@.len() as int) =~= s@);
    while j > 0 && s[j - 1] == c
        invariant
            0 <= j <= s@.len(),
            strip_trailing(s@, c) == strip_trailing(s@.subrange(0, j as int), c),
        decreases j,
    {
        assert(s@.subrange(0, j as int).drop_last() =~= s@.subrange(0, j - 1));
        j = j - 1;
    }
    sub_chars(s, 0, j)
}

/// `i` is the first position of `c` in `s`.
pub open spec fn first_at(s: Seq<char>, c: char, i: int) -> bool {
    0 <= i < s.len() && s[i] == c && forall|j: int| 0 <= j < i ==> s[j] != c
}

/// `i` is the last position of `c` in `s`.
pub open spec fn last_at(s: Seq<char>, c: char, i: int) -> bool {
    0 <= i < s.len() && s[i] == c && forall|j: int| i < j < s.len() ==> s[j] != c
}

/// `str::split_once(c)`: the text before and after the first `c`.
pub open spec fn split_once(s: Seq<char>, c: char) -> Option<(Seq<char>, Seq<char>)> {
    if exists|i: int| first_at(s, c, i) {
        let i = choose|i: int| first_at(s, c, i);
        Some((s.take(i), s.skip(i + 1)))
    } else {
        None
    }
}

/// `str::rsplit_once(c)`: the text before and after the last `c`.
pub open spec fn rsplit_once(s: Seq<char>, c: char) -> Option<(Seq<char>, Seq<char>)> {
    if exists|i: int| last_at(s, c, i) {
        let i = choose|i: int| last_at(s, c, i);
        Some((s.take(i), s.skip(i + 1)))
    } else {
        None
    }
}

pub fn split_once_chars(s: &[char], c: char) -> (r: Option<(Vec<char>, Vec<char>)>)
    ensures
        match r {
            None => split_once(s@, c) is None,
            Some((a, b)) => split_once(s@, c) == Some((a@, b@)),
        },
{
    let mut i: usize = 0;
    while i < s.len()
        invariant
            0 <= i <= s@.len(),
            forall|j: int| 0 <= j < i ==> s@[j] != c,
        decreases s@.len() - i,
    {
        if s[i] == c {
            assert(first_at(s@, c, i as int));
            proof {
                let k = choose|k: int| first_at(s@, c, k);
                assert(first_at(s@, c, k));
                if k < i {
                    assert(s@[k] != c);
                } else if k > i {
                    assert(s@[i as int] != c);
                }
                assert(k == i);
            }
            let a = sub_chars(s, 0, i);
            let b = sub_chars(s, i + 1, s.len());
            assert(a@ =~= s@.take(i as int));
            assert(b@ =~= s@.skip(i + 1));
            return Some((a, b));
        }
        i = i + 1;
    }
    assert forall|k: int| !first_at(s@, c, k) by {}
    None
}

pub fn rsplit_once_chars(s: &[char], c: char) -> (r: Option<(Vec<char>, Vec<char>)>)
    ensures
        match r {
            None => rsplit_once(s@, c) is None,
            Some((a, b)) => rsplit_once(s@, c) == Some((a@, b@)),
        },
{
    let mut j: usize = s.len();
    while j > 0
        invariant
            0 <= j <= s@.len(),
            forall|k: int| j <= k < s@.len() ==> s@[k] != c,
        decreases j,
    {
        let i = j - 1;
        if s[i] == c {
            assert(last_at(s@, c, i as int));
            proof {
                let k = choose|k: int| last_at(s@, c, k);
                assert(last_at(s@, c, k));
                if k < i {
                    assert(s@[i as int] != c);
                } else if k > i {
                    assert(s@[k] != c);
                }
                assert(k == i);
            }
            let a = sub_chars(s, 0, i);
            let b = sub_chars(s, i + 1, s.len());
            assert(a@ =~= s@.take(i as int));
            assert(b@ =~= s@.skip(i + 1));
            return Some((a, b));
        }
        j = i;
    }
    assert forall|k: int| !last_at(s@, c, k) by {}
    None
}

/// Characters allowed into the typed shell line: ASCII letters and digits,
/// `.`, `-` and `_`.
pub open spec fn safe_part(s: Seq<char>) -> bool {
    forall|i: int| 0 <= i < s.len() ==> {
        let c = #[trigger] s[i];
        is_ascii_alnum(c) || c == '.' || c == '-' || c == '_'
    }
}

pub fn is_safe_part(s: &[char]) -> (r: bool)
    ensures
        r == safe_part(s@),
{
    let mut i: usize = 0;
    while i < s.len()
        invariant
            0 <= i <= s@.len(),
            forall|j: int| 0 <= j < i ==> {
                let c = #[trigger] s@[j];
                is_ascii_alnum(c) || c == '.' || c == '-' || c == '_'
            },
        decreases s@.len() - i,
    {
        let c = s[i];
        if !(char_is_ascii_alnum(c) || c == '.' || c == '-' || c == '_') {
            return false;
        }
        i = i + 1;
    }
    true
}

/// The user part and the host-and-port part of an ssh URL's authority.
pub open spec fn user_and_hostport(rest: Seq<char>) -> (Option<Seq<char>>, Seq<char>) {
    match split_once(rest, '@') {
        Some((user, hostport)) => (Some(user), hostport),
        None => (None, rest),
    }
}

/// The host and the port: a port only when the text after the last `:` is a
/// non-empty run of digits.
pub open spec fn host_and_port(hostport: Seq<char>) -> (Seq<char>, Option<Seq<char>>) {
    match rsplit_once(hostport, ':') {
        Some((host, port)) => if port.len() > 0 && all_digits(port) {
            (host, Some(port))
        } else {
            (hostport, None)
        },
        None => (hostport, None),
    }
}

/// What `ssh_url_to_command` types for a URL: `ssh [user@]host [-p port]`
/// and a newline, or nothing when the URL is not `ssh://`, names no host,
/// or carries characters outside the safe set.
pub open spec fn ssh_url_command_spec(url: Seq<char>) -> Option<Seq<char>> {
    if !starts_with(url, "ssh://"@) {
        None
    } else {
        let rest = strip_trailing(url.skip("ssh://"@.len() as int), '/');
        let (user, hostport) = user_and_hostport(rest);
        let (host, port) = host_and_port(hostport);
        if rest.len() == 0 || host.len() == 0 || !safe_part(host) || (user is Some && !safe_part(
            user->0,
        )) {
            None
        } else {
            Some(
                "ssh "@ + (match user {
                    Some(u) => u + "@"@,
                    None => Seq::empty(),
                }) + host + (match port {
                    Some(p) => " -p "@ + p,
                    None => Seq::empty(),
                }) + "\n"@,
            )
        }
    }
}

fn all_digit_chars(s: &[char]) -> (r: bool)
    ensures
        r == all_digits(s@),
{
    let mut i: usize = 0;
    while i < s.len()
        invariant
            0 <= i <= s@.len(),
            forall|j: int| 0 <= j < i ==> crate::text::is_digit(#[trigger] s@[j]),
        decreases s@.len() - i,
    {
        if !char_is_digit(s[i]) {
            return false;
        }
        i = i + 1;
    }
    true
}

/// Turn an ssh:// URL into the shell command typed into a fresh tab:
/// `ssh [user@]host [-p port]`.
pub fn ssh_url_to_command(url: &str) -> (r: Option<String>)
    ensures
        match r {
            None => ssh_url_command_spec(url@) is None,
            Some(cmd) => ssh_url_command_spec(url@) == Some(cmd@),
        },
{
    let u = chars_of(url);
    let after = match strip_prefix(&u, "ssh://") {
        Some(a) => a,
        None => return None,
    };
    let rest = strip_trailing_chars(&after, '/');
    if rest.len() == 0 {
        return None;
    }
    let (user, hostport): (Option<Vec<char>>, Vec<char>) = match split_once_chars(&rest, '@') {
        Some((a, b)) => (Some(a), b),
        None => (None, rest.clone()),
    };
    assert(hostport@ == user_and_hostport(rest@).1);
    assert(user matches Some(x) ==> user_and_hostport(rest@).0 == Some(x@));
    assert(user is None ==> user_and_hostport(rest@).0 is None);
    let (host, port): (Vec<char>, Option<Vec<char>>) = match rsplit_once_chars(&hostport, ':') {
        Some((h, p)) => if p.len() > 0 && all_digit_chars(&p) {
            (h, Some(p))
        } else {
            (hostport.clone(), None)
        },
        None => (hostport.clone(), None),
    };
    assert(host@ == host_and_port(hostport@).0);
    assert(port matches Some(x) ==> host_and_port(hostport@).1 == Some(x@));
    assert(port is None ==> host_and_port(hostport@).1 is None);
    if host.len() == 0 {
        return None;
    }
    // Only allow safe characters into the typed shell line.
    if !is_safe_part(&host) {
        return None;
    }
    if let Some(us) = &user {
        if !is_safe_part(us) {
            return None;
        }
    }
    let mut command: Vec<char> = chars_of("ssh ");
    if let Some(us) = &user {
        append_chars(&mut command, us);
        append_str(&mut command, "@");
    }
    append_chars(&mut command, &host);
    if let Some(p) = &port {
        append_str(&mut command, " -p ");
        append_chars(&mut command, p);
    }
    append_str(&mut command, "\n");
    proof {
        let spec_user = user_and_hostport(rest@).0;
        let spec_port = host_and_port(hostport@).1;
        let mid = match spec_user {
            Some(x) => x + "@"@,
            None => Seq::<char>::empty(),
        };
        let tail = match spec_port {
            Some(x) => " -p "@ + x,
            None => Seq::<char>::empty(),
        };
        assert(command@ =~= "ssh "@ + mid + host@ + tail + "\n"@);
    }
    Some(string_of(&command))
}

/// What to do about being the system's `ssh://` handler.
#[derive(Debug, Clone, Copy, PartialEq, Eq)]
pub enum SshHandlerPlan {
    /// Nothing to change (or no bundle identifier to register).
    Leave,
    /// Register this app as the default handler.
    Claim,
    /// Hand the scheme to another app that declares it.
    Release,
}

/// Registration is changed only when it differs from the setting: changing
/// the default handler is a user-visible system change. Running without a
/// bundle identifier there is nothing to register.
pub open spec fn ssh_handler_plan_spec(should_be_default: bool, bundle_id: Option<Seq<char>>, current: Option<Seq<char>>) -> SshHandlerPlan {
    match bundle_id {
        None => SshHandlerPlan::Leave,
        Some(b) => {
            let is_default = current == Some(b);
            if should_be_default && !is_default {
                SshHandlerPlan::Claim
            } else if !should_be_default && is_default {
                SshHandlerPlan::Release
            } else {
                SshHandlerPlan::Leave
            }
        },
    }
}

/// Decide whether to claim or release the `ssh://` scheme, given this app's
/// bundle identifier and the scheme's current default handler.
pub fn ssh_handler_plan(should_be_default: bool, bundle_id: Option<&str>, current: Option<&str>) -> (r: SshHandlerPlan)
    ensures
        r == ssh_handler_plan_spec(
            should_be_default,
            crate::text::opt_str_view(bundle_id),
            crate::text::opt_str_view(current),
        ),
{
    match bundle_id {
        None => SshHandlerPlan::Leave,
        Some(b) => {
            let is_default = match current {
                Some(c) => str_eq(c, b),
                None => false,
            };
            if should_be_default && !is_default {
                SshHandlerPlan::Claim
            } else if !should_be_default && is_default {
                SshHandlerPlan::Release
            } else {
                SshHandlerPlan::Leave
            }
        },
    }
}

/// The first handler in `handlers` that is not this app.
pub open spec fn other_handler_spec(handlers: Seq<Seq<char>>, own: Seq<char>) -> Option<Seq<char>>
    decreases handlers.len(),
{
    if handlers.len() == 0 {
        None
    } else if handlers[0] != own {
        Some(handlers[0])
    } else {
        other_handler_spec(handlers.drop_first(), own)
    }
}

/// Another app that declares `ssh://`, if there is one, among the
/// scheme's handlers in the order the system lists them.
pub fn other_ssh_handler(handlers: &Vec<String>, own_bundle_id: &str) -> (r: Option<String>)
    ensures
        crate::text::opt_view(r) == other_handler_spec(handlers@.map_values(|s: String| s@), own_bundle_id@),
{
    let ghost hv = handlers@.map_values(|s: String| s@);
    let mut i: usize = 0;
    assert(hv.skip(0) =~= hv);
    while i < handlers.len()
        invariant
            0 <= i <= handlers@.len(),
            hv == handlers@.map_values(|s: String| s@),
            other_handler_spec(hv, own_bundle_id@) == other_handler_spec(hv.skip(i as int), own_bundle_id@),
        decreases handlers@.len() - i,
    {
        assert(hv.skip(i as int)[0] == hv[i as int]);
        assert(hv.skip(i as int).drop_first() =~= hv.skip(i + 1));
        if !str_eq(handlers[i].as_str(), own_bundle_id) {
            return Some(copy_string(&handlers[i]));
        }
        i = i + 1;
    }
    None
}

/// A character the typed ssh command may hold: letters, digits, `.`, `-`,
/// `_`, `@`, the space and the final newline.
pub open spec fn command_char(c: char) -> bool {
    is_ascii_alnum(c) || c == '.' || c == '-' || c == '_' || c == '@' || c == ' ' || c == '\n'
}

/// Whatever URL comes in, the line typed into the shell starts with `ssh `,
/// ends with its only newline, and holds nothing a shell would read as
/// syntax: only letters, digits, `.`, `-`, `_`, `@` and spaces.
pub proof fn law_ssh_command_is_inert(url: Seq<char>)
    ensures
        ssh_url_command_spec(url) matches Some(c) ==> {
            &&& starts_with(c, "ssh "@)
            &&& c.last() == '\n'
            &&& forall|i: int| 0 <= i < c.len() ==> command_char(#[trigger] c[i])
            &&& forall|i: int| 0 <= i < c.len() - 1 ==> #[trigger] c[i] != '\n'
        },
{
    reveal_strlit("ssh ");
    reveal_strlit("@");
    reveal_strlit(" -p ");
    reveal_strlit("\n");
    match ssh_url_command_spec(url) {
        Some(c) => {
            let rest = strip_trailing(url.skip("ssh://"@.len() as int), '/');
            let (user, hostport) = user_and_hostport(rest);
            let (host, port) = host_and_port(hostport);
            let up = match user {
                Some(u) => u + "@"@,
                None => Seq::empty(),
            };
            let pp = match port {
                Some(p) => " -p "@ + p,
                None => Seq::empty(),
            };
            assert(c == "ssh "@ + up + host + pp + "\n"@);
            assert forall|i: int| 0 <= i < up.len() implies command_char(#[trigger] up[i]) && up[i] != '\n' by {
                match user {
                    Some(u) => {
                        if i < u.len() {
                            assert(up[i] == u[i]);
                        }
                    },
                    None => {},
                }
            }
            assert forall|i: int| 0 <= i < host.len() implies command_char(#[trigger] host[i]) && host[i] != '\n' by {}
            assert forall|i: int| 0 <= i < pp.len() implies command_char(#[trigger] pp[i]) && pp[i] != '\n' by {
                match port {
                    Some(p) => {
                        if i >= 4 {
                            assert(pp[i] == p[i - 4]);
                            assert(crate::text::is_digit(p[i - 4]));
                        }
                    },
                    None => {},
                }
            }
            let a = "ssh "@ + up;
            let b = a + host;
            let d = b + pp;
            assert forall|i: int| 0 <= i < c.len() - 1 implies command_char(#[trigger] c[i]) && c[i] != '\n' by {
                if i < 4 {
                    assert(c[i] == "ssh "@[i]);
                } else if i < a.len() {
                    assert(c[i] == up[i - 4]);
                } else if i < b.len() {
                    assert(c[i] == host[i - a.len()]);
                } else {
                    assert(c[i] == pp[i - b.len()]);
                }
            }
            assert(c[c.len() - 1] == '\n');
            assert(c.subrange(0, 4) =~= "ssh "@);
        },
        None => {},
    }
}

} // verus!
