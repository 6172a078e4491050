//! SSH profiles: the argv handed to the system `ssh`, the askpass wiring
//! for stored passwords, and which askpass prompts get the password.

use vstd::prelude::*;

use crate::text::{
    append_chars, append_str, chars_of, contains, decimal, decimal_chars, has_substring,
    lowercase, str_lowercase, string_from, string_of, trim, trim_chars,
};

verus! {

/// SSH connection settings for a profile of type 'ssh'.
/// The `ssh` block of a profile in the config file.
#[derive(Debug, Clone, Default)]
pub struct SshOptions {
    pub host: String,
    pub user: String,
    pub port: Option<u16>,
    pub identity_file: Option<String>,
    pub forward_agent: bool,
    pub extra_args: Vec<String>,
    pub password_auth: bool,
    pub password: Option<String>,
}

/// The characters of each string of a vector.
pub open spec fn strings_view(v: Seq<String>) -> Seq<Seq<char>> {
    v.map_values(|s: String| s@)
}

/// The ssh argv: options first, then `user@host`.
pub open spec fn ssh_args_spec(ssh: SshOptions) -> Seq<Seq<char>> {
    let port = match ssh.port {
        Some(p) => seq!["-p"@, decimal(p as nat)],
        None => Seq::empty(),
    };
    let auth = if ssh.password_auth {
        seq![
            "-o"@,
            "PreferredAuthentications=password,keyboard-interactive"@,
            "-o"@,
            "PubkeyAuthentication=no"@,
            "-o"@,
            "StrictHostKeyChecking=accept-new"@,
        ]
    } else {
        match ssh.identity_file {
            Some(id) => if id@.len() > 0 {
                seq!["-i"@, id@]
            } else {
                Seq::empty()
            },
            None => Seq::empty(),
        }
    };
    let agent = if ssh.forward_agent {
        seq!["-A"@]
    } else {
        Seq::empty()
    };
    port + seq!["-o"@, "ConnectTimeout=15"@] + auth + agent + strings_view(ssh.extra_args@) + seq![
        ssh.user@ + "@"@ + ssh.host@,
    ]
}

fn push_str(v: &mut Vec<String>, s: &str)
    ensures
        strings_view(final(v)@) == strings_view(old(v)@).push(s@),
{
    let ghost before = v@;
    v.push(string_from(s));
    assert(strings_view(v@) =~= strings_view(before).push(s@));
}

fn push_chars(v: &mut Vec<String>, s: &[char])
    ensures
        strings_view(final(v)@) == strings_view(old(v)@).push(s@),
{
    let ghost before = v@;
    v.push(string_of(s));
    assert(strings_view(v@) =~= strings_view(before).push(s@));
}

/// Argv passed to the `ssh` binary:
/// a 15 s connect timeout (the ssh2 client's `readyTimeout`); for password
/// auth, password and keyboard-interactive only, no public keys, and new
/// host keys accepted without a prompt the askpass helper could not answer;
/// otherwise the identity file when one is set.
pub fn build_ssh_args(ssh: &SshOptions) -> (r: Vec<String>)
    ensures
        strings_view(r@) == ssh_args_spec(*ssh),
{
    let mut args: Vec<String> = Vec::new();
    if let Some(port) = ssh.port {
        push_str(&mut args, "-p");
        let d = decimal_chars(port as u64);
        push_chars(&mut args, &d);
    }
    push_str(&mut args, "-o");
    push_str(&mut args, "ConnectTimeout=15");
    if ssh.password_auth {
        push_str(&mut args, "-o");
        push_str(&mut args, "PreferredAuthentications=password,keyboard-interactive");
        push_str(&mut args, "-o");
        push_str(&mut args, "PubkeyAuthentication=no");
        push_str(&mut args, "-o");
        push_str(&mut args, "StrictHostKeyChecking=accept-new");
    } else if let Some(identity) = &ssh.identity_file {
        if identity.as_str().unicode_len() > 0 {
            push_str(&mut args, "-i");
            push_str(&mut args, identity.as_str());
        }
    }
    if ssh.forward_agent {
        push_str(&mut args, "-A");
    }
    let ghost before_extra = strings_view(args@);
    let mut i: usize = 0;
    while i < ssh.extra_args.len()
        invariant
            0 <= i <= ssh.extra_args@.len(),
            strings_view(args@) == before_extra + strings_view(ssh.extra_args@.subrange(
                0,
                i as int,
            )),
        decreases ssh.extra_args@.len() - i,
    {
        push_str(&mut args, ssh.extra_args[i].as_str());
        i = i + 1;
        assert(strings_view(ssh.extra_args@.subrange(0, i as int)) =~= strings_view(
            ssh.extra_args@.subrange(0, i - 1),
        ).push(ssh.extra_args@[i - 1]@));
    }
    assert(ssh.extra_args@.subrange(0, ssh.extra_args@.len() as int) =~= ssh.extra_args@);
    let mut target: Vec<char> = chars_of(ssh.user.as_str());
    append_str(&mut target, "@");
    append_str(&mut target, ssh.host.as_str());
    push_chars(&mut args, &target);
    assert(strings_view(args@) =~= ssh_args_spec(*ssh));
    args
}

/// Shell command + env for launching an ssh session in a PTY.
///
/// Password auth spawns the system `ssh` with SSH_ASKPASS pointed at our own
/// binary in askpass-helper mode; the password is handed over via a 0600
/// file named in HYPER_ASKPASS_FILE, which must be deleted once the session
/// ends (`password_file`).
pub struct SshCommand {
    pub program: String,
    pub args: Vec<String>,
    pub env: Vec<(String, String)>,
    pub password_file: Option<String>,
}

impl SshCommand {
    /// The value the environment gives `key`, if any.
    pub fn env_var(&self, key: &str) -> (r: Option<String>)
        ensures
            match r {
                Some(v) => exists|i: int|
                    0 <= i < self.env@.len() && (#[trigger] self.env@[i]).0@ == key@
                        && self.env@[i].1@ == v@,
                None => forall|i: int|
                    0 <= i < self.env@.len() ==> (#[trigger] self.env@[i]).0@ != key@,
            },
    {
        let mut i: usize = 0;
        while i < self.env.len()
            invariant
                0 <= i <= self.env@.len(),
                forall|j: int| 0 <= j < i ==> (#[trigger] self.env@[j]).0@ != key@,
            decreases self.env@.len() - i,
        {
            if crate::text::str_eq(self.env[i].0.as_str(), key) {
                return Some(crate::text::copy_string(&self.env[i].1));
            }
            i = i + 1;
        }
        None
    }
}

/// The password the askpass helper will hand to ssh: only for password
/// auth with a non-empty stored password and a helper to run. Without one,
/// ssh prompts on the TTY as usual.
pub open spec fn askpass_password_spec(ssh: SshOptions, have_helper: bool) -> Option<Seq<char>> {
    if ssh.password_auth && have_helper {
        match ssh.password {
            Some(p) => if p@.len() > 0 {
                Some(p@)
            } else {
                None
            },
            None => None,
        }
    } else {
        None
    }
}

/// The password that must be written to a file for the askpass helper.
pub fn askpass_password(ssh: &SshOptions, have_helper: bool) -> (r: Option<String>)
    ensures
        match r {
            Some(p) => askpass_password_spec(*ssh, have_helper) == Some(p@),
            None => askpass_password_spec(*ssh, have_helper) is None,
        },
{
    if ssh.password_auth && have_helper {
        if let Some(p) = &ssh.password {
            if p.as_str().unicode_len() > 0 {
                return Some(crate::text::copy_string(p));
            }
        }
    }
    None
}

/// Assemble the ssh launch: program `ssh`, the argv of `build_ssh_args`,
/// and — when a stored password is used and its file has been written to
/// `password_file` — SSH_ASKPASS pointing at the helper,
/// SSH_ASKPASS_REQUIRE=force (ssh has a TTY in our PTY and would otherwise
/// prompt inline) and HYPER_ASKPASS_FILE naming the file.
pub fn build_ssh_command(
    ssh: &SshOptions,
    askpass_helper: Option<&str>,
    password_file: Option<&str>,
) -> (r: SshCommand)
    ensures
        r.program@ == "ssh"@,
        strings_view(r.args@) == ssh_args_spec(*ssh),
        match (askpass_password_spec(*ssh, askpass_helper is Some), askpass_helper, password_file) {
            (Some(_), Some(helper), Some(file)) => {
                &&& r.env@.len() == 3
                &&& r.env@[0].0@ == "SSH_ASKPASS"@ && r.env@[0].1@ == helper@
                &&& r.env@[1].0@ == "SSH_ASKPASS_REQUIRE"@ && r.env@[1].1@ == "force"@
                &&& r.env@[2].0@ == "HYPER_ASKPASS_FILE"@ && r.env@[2].1@ == file@
                &&& r.password_file matches Some(f) && f@ == file@
            },
            _ => r.env@.len() == 0 && r.password_file is None,
        },
{
    let args = build_ssh_args(ssh);
    let mut env: Vec<(String, String)> = Vec::new();
    let mut recorded: Option<String> = None;
    let wanted = askpass_password(ssh, askpass_helper.is_some());
    if let (Some(_), Some(helper), Some(file)) = (wanted, askpass_helper, password_file) {
        env.push((string_from("SSH_ASKPASS"), string_from(helper)));
        env.push((string_from("SSH_ASKPASS_REQUIRE"), string_from("force")));
        env.push((string_from("HYPER_ASKPASS_FILE"), string_from(file)));
        recorded = Some(string_from(file));
    }
    SshCommand { program: string_from("ssh"), args, env, password_file: recorded }
}

/// Does this askpass prompt want the account password? Never for a key
/// passphrase or a host-key / yes-no confirmation; always for an empty
/// prompt (ssh gave no context, and the password is all we ask for);
/// otherwise when the prompt mentions a password.
pub open spec fn prompt_wants_password_spec(prompt: Seq<char>) -> bool {
    let lower = str_lowercase(prompt);
    if contains(lower, "passphrase"@) {
        false
    } else if contains(lower, "yes/no"@) || contains(lower, "fingerprint"@) || contains(
        lower,
        "continue connecting"@,
    ) {
        false
    } else {
        trim(prompt).len() == 0 || contains(lower, "password"@)
    }
}

pub fn prompt_wants_password(prompt: &str) -> (r: bool)
    ensures
        r == prompt_wants_password_spec(prompt@),
{
    let lower_s = lowercase(prompt);
    let lower = chars_of(lower_s.as_str());
    if has_substring(&lower, &chars_of("passphrase")) {
        return false;
    }
    if has_substring(&lower, &chars_of("yes/no")) || has_substring(&lower, &chars_of("fingerprint"))
        || has_substring(&lower, &chars_of("continue connecting")) {
        return false;
    }
    let p = chars_of(prompt);
    let t = trim_chars(&p);
    t.len() == 0 || has_substring(&lower, &chars_of("password"))
}

/// The configured extra arguments reach ssh whole and in order: they come
/// last before the `user@host` target, which ends the argv, and everything
/// before them is the same whatever the extra arguments are.
pub proof fn law_extra_args_in_order(ssh: SshOptions, other_extra: Vec<String>)
    ensures
        ({
            let a = ssh_args_spec(ssh);
            let e = strings_view(ssh.extra_args@);
            let n = a.len();
            let b = ssh_args_spec(SshOptions { extra_args: other_extra, ..ssh });
            let e2 = strings_view(other_extra@);
            &&& n >= e.len() + 3
            &&& a.last() == ssh.user@ + "@"@ + ssh.host@
            &&& a.subrange(n - 1 - e.len(), n - 1) == e
            &&& a.subrange(0, n - 1 - e.len()) == b.subrange(0, b.len() - 1 - e2.len())
        }),
{
    let a = ssh_args_spec(ssh);
    let e = strings_view(ssh.extra_args@);
    let n = a.len();
    let b = ssh_args_spec(SshOptions { extra_args: other_extra, ..ssh });
    let e2 = strings_view(other_extra@);
    let port = match ssh.port {
        Some(p) => seq!["-p"@, decimal(p as nat)],
        None => Seq::empty(),
    };
    let auth = if ssh.password_auth {
        seq![
            "-o"@,
            "PreferredAuthentications=password,keyboard-interactive"@,
            "-o"@,
            "PubkeyAuthentication=no"@,
            "-o"@,
            "StrictHostKeyChecking=accept-new"@,
        ]
    } else {
        match ssh.identity_file {
            Some(id) => if id@.len() > 0 {
                seq!["-i"@, id@]
            } else {
                Seq::empty()
            },
            None => Seq::empty(),
        }
    };
    let agent = if ssh.forward_agent {
        seq!["-A"@]
    } else {
        Seq::empty()
    };
    let pre = port + seq!["-o"@, "ConnectTimeout=15"@] + auth + agent;
    let target = ssh.user@ + "@"@ + ssh.host@;
    assert(a =~= pre + e + seq![target]);
    assert(b =~= pre + e2 + seq![target]);
    assert(a.subrange(n - 1 - e.len(), n - 1) =~= e);
    assert(a.subrange(0, n - 1 - e.len()) =~= pre);
    assert(b.subrange(0, b.len() - 1 - e2.len()) =~= pre);
}

} // verus!
