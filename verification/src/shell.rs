//! Shell-facing text: escaping a path typed at a prompt, and the shell to
//! fall back to when a configured shell dies on startup.

use vstd::prelude::*;

use crate::text::{chars_of, copy_string, string_from, string_of};

verus! {

/// The characters PHP's `escapeshellcmd` backslash-escapes, plus the space,
/// which is escaped too.
pub open spec fn is_shell_meta(c: char) -> bool {
    ||| c == '#'
    ||| c == '&'
    ||| c == ';'
    ||| c == '`'
    ||| c == '|'
    ||| c == '*'
    ||| c == '?'
    ||| c == '~'
    ||| c == '<'
    ||| c == '>'
    ||| c == '^'
    ||| c == '('
    ||| c == ')'
    ||| c == '['
    ||| c == ']'
    ||| c == '{'
    ||| c == '}'
    ||| c == '$'
    ||| c == '\\'
    ||| c == '\n'
    ||| c == '\u{ff}'
    ||| c == '\''
    ||| c == '"'
    ||| c == ' '
}

pub fn char_is_shell_meta(c: char) -> (r: bool)
    ensures
        r == is_shell_meta(c),
{
    c == '#' || c == '&' || c == ';' || c == '`' || c == '|' || c == '*' || c == '?' || c == '~'
        || c == '<' || c == '>' || c == '^' || c == '(' || c == ')' || c == '[' || c == ']' || c
        == '{' || c == '}' || c == '$' || c == '\\' || c == '\n' || c == '\u{ff}' || c == '\''
        || c == '"' || c == ' '
}

/// Every shell metacharacter of `s` preceded by a backslash.
pub open spec fn escape_spec(s: Seq<char>) -> Seq<char>
    decreases s.len(),
{
    if s.len() == 0 {
        s
    } else if is_shell_meta(s.last()) {
        escape_spec(s.drop_last()) + seq!['\\', s.last()]
    } else {
        escape_spec(s.drop_last()).push(s.last())
    }
}

/// PHP's `escapeshellcmd` plus space escaping, so
/// that opening a file called `report;rm -rf ~.txt` types a harmless
/// literal path. Quotes are escaped unconditionally.
pub fn escape_shell_cmd(path: &str) -> (r: String)
    ensures
        r@ == escape_spec(path@),
{
    let p = chars_of(path);
    let mut out: Vec<char> = Vec::new();
    let mut i: usize = 0;
    while i < p.len()
        invariant
            0 <= i <= p@.len(),
            out@ == escape_spec(p@.subrange(0, i as int)),
        decreases p@.len() - i,
    {
        let ch = p[i];
        let ghost prefix = p@.subrange(0, i + 1);
        assert(prefix.drop_last() =~= p@.subrange(0, i as int));
        assert(prefix.last() == ch);
        let ghost before = out@;
        if char_is_shell_meta(ch) {
            out.push('\\');
        }
        out.push(ch);
        assert(out@ =~= escape_spec(prefix));
        i = i + 1;
    }
    assert(p@.subrange(0, p@.len() as int) =~= p@);
    string_of(&out)
}

/// Shell args used when the config names none: a login shell.
pub fn default_shell_args() -> (r: Vec<String>)
    ensures
        r@.len() == 1,
        r@[0]@ == "--login"@,
{
    let mut v: Vec<String> = Vec::new();
    v.push(string_from("--login"));
    v
}

/// Next shell configuration to try after a shell died immediately
/// (`getFallBackShellConfig`): first the same shell with no args (the args
/// are the usual culprit), then the system default shell with `--login`;
/// `None` when that is what just died.
pub fn fallback_shell_config(shell: &str, shell_args: &[String], default_shell: &str) -> (r:
    Option<(String, Vec<String>)>)
    ensures
        shell_args@.len() > 0 ==> (r matches Some((s, a)) && s@ == shell@ && a@.len() == 0),
        shell_args@.len() == 0 && shell@ != default_shell@ ==> (r matches Some((s, a)) && s@
            == default_shell@ && a@.len() == 1 && a@[0]@ == "--login"@),
        shell_args@.len() == 0 && shell@ == default_shell@ ==> r is None,
{
    if shell_args.len() > 0 {
        return Some((string_from(shell), Vec::new()));
    }
    if !crate::text::str_eq(shell, default_shell) {
        return Some((string_from(default_shell), default_shell_args()));
    }
    None
}

/// What the file system says of a path handed to the app to open.
#[derive(Debug, Clone, Copy, PartialEq, Eq)]
pub enum PathKind {
    Missing,
    Directory,
    /// A file, with whether it would run when typed at a prompt.
    File { executable: bool },
}

/// A Unix permission mode runs when typed at a prompt: any of the three
/// execute bits is set.
pub fn mode_is_executable(mode: u32) -> (r: bool)
    ensures
        r == (mode & 0o111 != 0),
{
    mode & 0o111 != 0
}

/// What opening a path does.
#[derive(Debug, Clone, PartialEq, Eq)]
pub enum OpenPlan {
    /// The path does not exist: tell the user.
    ReportMissing,
    /// Open a new tab whose shell starts in the directory.
    NewTabIn,
    /// Open a new tab and type this at its prompt.
    TypeInNewTab(String),
}

/// Opening a path: a directory opens a tab already in it; a file opens a
/// tab with its escaped path typed at the prompt, followed by a newline
/// (which runs it) only when it is executable, so that the user decides
/// what to do with any other file; a missing path is reported.
pub fn open_path_plan(kind: PathKind, path: &str) -> (r: OpenPlan)
    ensures
        match kind {
            PathKind::Missing => r == OpenPlan::ReportMissing,
            PathKind::Directory => r == OpenPlan::NewTabIn,
            PathKind::File { executable } => r matches OpenPlan::TypeInNewTab(t) && t@ == if executable {
                escape_spec(path@).push('\n')
            } else {
                escape_spec(path@)
            },
        },
{
    match kind {
        PathKind::Missing => OpenPlan::ReportMissing,
        PathKind::Directory => OpenPlan::NewTabIn,
        PathKind::File { executable } => {
            let escaped = escape_shell_cmd(path);
            if executable {
                let mut v = chars_of(escaped.as_str());
                v.push('\n');
                OpenPlan::TypeInNewTab(string_of(&v))
            } else {
                OpenPlan::TypeInNewTab(escaped)
            }
        },
    }
}

/// What happens when a pane's shell exits.
#[derive(Debug, Clone, PartialEq, Eq)]
pub enum ExitPlan {
    /// It died on startup: respawn it in place with this configuration.
    Retry { shell: String, args: Vec<String> },
    /// It died on startup and nothing is left to try: say so and keep the
    /// pane open.
    GiveUp,
    /// An ordinary exit: close the pane.
    Close,
}

/// A shell that exits with a positive code within its first second died
/// on startup: a broken shell configuration, not the user leaving.
pub open spec fn died_on_startup(code: Option<i32>, elapsed_ms: u64) -> bool {
    code matches Some(c) && c > 0 && elapsed_ms < 1000
}

/// Decide what a shell exit does, from its exit code, how long it ran, and
/// what it was started with. Any shell that died on startup is retried
/// with a safer configuration ([`fallback_shell_config`]), the system
/// default shell too, so that a broken profile shows up instead of every
/// new tab closing at once.
pub fn exit_plan(code: Option<i32>, elapsed_ms: u64, shell: &str, shell_args: &[String], default_shell: &str) -> (r:
    ExitPlan)
    ensures
        !died_on_startup(code, elapsed_ms) ==> r == ExitPlan::Close,
        died_on_startup(code, elapsed_ms) && shell_args@.len() > 0 ==> (r matches ExitPlan::Retry { shell: s, args: a }
            && s@ == shell@ && a@.len() == 0),
        died_on_startup(code, elapsed_ms) && shell_args@.len() == 0 && shell@ != default_shell@ ==> (r matches ExitPlan::Retry {
            shell: s,
            args: a,
        } && s@ == default_shell@ && a@.len() == 1 && a@[0]@ == "--login"@),
        died_on_startup(code, elapsed_ms) && shell_args@.len() == 0 && shell@ == default_shell@ ==> r
            == ExitPlan::GiveUp,
{
    let died = match code {
        Some(c) => c > 0 && elapsed_ms < 1000,
        None => false,
    };
    if !died {
        return ExitPlan::Close;
    }
    match fallback_shell_config(shell, shell_args, default_shell) {
        Some((s, a)) => ExitPlan::Retry { shell: s, args: a },
        None => ExitPlan::GiveUp,
    }
}

/// Escaping works character by character: the escape of two texts joined is
/// their escapes joined; a character a shell reads as syntax (`# & ; `` ` ``
/// `| * ? ~ < > ^ ( ) [ ] { } $ \`, newline, `\u{ff}`, quotes, space)
/// gets a backslash before it; letters, digits, `/`, `.`, `-`, `_`, `:`,
/// `,`, `=`, `+` and `@` pass unchanged.
pub proof fn law_escape_per_character(a: Seq<char>, b: Seq<char>, c: char)
    ensures
        escape_spec(a + b) == escape_spec(a) + escape_spec(b),
        (c == '#' || c == '&' || c == ';' || c == '`' || c == '|' || c == '*' || c == '?' || c == '~' || c
            == '<' || c == '>' || c == '^' || c == '(' || c == ')' || c == '[' || c == ']' || c == '{' || c
            == '}' || c == '$' || c == '\\' || c == '\n' || c == '\u{ff}' || c == '\'' || c == '"' || c == ' ')
            ==> escape_spec(seq![c]) == seq!['\\', c],
        (crate::text::is_ascii_alnum(c) || c == '/' || c == '.' || c == '-' || c == '_' || c == ':' || c == ','
            || c == '=' || c == '+' || c == '@') ==> escape_spec(seq![c]) == seq![c],
    decreases b.len(),
{
    if b.len() == 0 {
        assert(a + b =~= a);
        assert(escape_spec(a) + escape_spec(b) =~= escape_spec(a));
    } else {
        law_escape_per_character(a, b.drop_last(), c);
        assert((a + b).drop_last() =~= a + b.drop_last());
        assert((a + b).last() == b.last());
        if is_shell_meta(b.last()) {
            assert(escape_spec(a + b) =~= escape_spec(a) + escape_spec(b));
        } else {
            assert(escape_spec(a + b) =~= escape_spec(a) + escape_spec(b));
        }
    }
    let s = seq![c];
    assert(s.drop_last() =~= Seq::<char>::empty());
    assert(escape_spec(s.drop_last()) == Seq::<char>::empty());
    assert(s.last() == c);
    if is_shell_meta(c) {
        assert(escape_spec(s) =~= seq!['\\', c]);
    } else {
        assert(escape_spec(s) =~= seq![c]);
    }
}

} // verus!
