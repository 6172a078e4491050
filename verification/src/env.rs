//! The environment a terminal session starts with, and the default shell.

use vstd::prelude::*;

use crate::platform::Platform;
use crate::text::{append_str, chars_of, copy_string, replace_all, replace_chars, str_eq, string_from, string_of};

verus! {

broadcast use vstd::string::group_string_axioms;

/// Variables as key and value characters.
pub open spec fn vars_view(v: Seq<(String, String)>) -> Seq<(Seq<char>, Seq<char>)> {
    v.map_values(|p: (String, String)| (p.0@, p.1@))
}

/// The value of the first variable named `k`.
pub open spec fn var_lookup(v: Seq<(Seq<char>, Seq<char>)>, k: Seq<char>) -> Option<Seq<char>>
    decreases v.len(),
{
    if v.len() == 0 {
        None
    } else if v[0].0 == k {
        Some(v[0].1)
    } else {
        var_lookup(v.drop_first(), k)
    }
}

/// No variable appears twice.
pub open spec fn distinct_names(v: Seq<(Seq<char>, Seq<char>)>) -> bool {
    forall|i: int, j: int| 0 <= i < j < v.len() ==> #[trigger] v[i].0 != #[trigger] v[j].0
}

/// `LANG`: the system locale (`en_US` when unknown) with `-` turned into
/// `_`, in UTF-8.
pub open spec fn lang_value(locale: Option<Seq<char>>) -> Seq<char> {
    replace_all(
        match locale {
            Some(l) => l,
            None => "en_US"@,
        },
        "-"@,
        "_"@,
    ) + ".UTF-8"@
}

/// The variables every session gets before the profile's own.
pub open spec fn base_value(k: Seq<char>, locale: Option<Seq<char>>, version: Seq<char>) -> Option<Seq<char>> {
    if k == "LANG"@ {
        Some(lang_value(locale))
    } else if k == "TERM"@ {
        Some("xterm-256color"@)
    } else if k == "COLORTERM"@ {
        Some("truecolor"@)
    } else if k == "TERM_PROGRAM"@ {
        Some("hyper-revamp"@)
    } else if k == "TERM_PROGRAM_VERSION"@ {
        Some(version)
    } else {
        None
    }
}

/// `r` is the session environment for `profile` under `locale`: no name
/// twice, each profile variable as given, every other name as `base_value`.
pub open spec fn session_env(
    r: Seq<(Seq<char>, Seq<char>)>,
    profile: Seq<(Seq<char>, Seq<char>)>,
    locale: Option<Seq<char>>,
    version: Seq<char>,
) -> bool {
    &&& distinct_names(r)
    &&& forall|k: Seq<char>| #[trigger] var_lookup(r, k) == match var_lookup(profile, k) {
        Some(v) => Some(v),
        None => base_value(k, locale, version),
    }
}

proof fn lemma_lookup_props(v: Seq<(Seq<char>, Seq<char>)>, k: Seq<char>)
    ensures
        var_lookup(v, k) is None <==> forall|i: int| 0 <= i < v.len() ==> #[trigger] v[i].0 != k,
        distinct_names(v) ==> forall|i: int| 0 <= i < v.len() && #[trigger] v[i].0 == k ==> var_lookup(v, k) == Some(v[i].1),
    decreases v.len(),
{
    if v.len() > 0 {
        lemma_lookup_props(v.drop_first(), k);
        assert forall|i: int| 0 < i < v.len() implies #[trigger] v[i] == v.drop_first()[i - 1] by {}
        if distinct_names(v) {
            assert(distinct_names(v.drop_first()));
        }
    }
}

/// Set `k` to `val`, replacing an existing entry in place or adding one.
fn set_var(v: &mut Vec<(String, String)>, k: &str, val: String)
    requires
        distinct_names(vars_view(old(v)@)),
    ensures
        distinct_names(vars_view(final(v)@)),
        forall|x: Seq<char>| #[trigger] var_lookup(vars_view(final(v)@), x) == if x == k@ {
            Some(val@)
        } else {
            var_lookup(vars_view(old(v)@), x)
        },
{
    let ghost v0 = vars_view(v@);
    let mut i: usize = 0;
    while i < v.len()
        invariant
            0 <= i <= v@.len(),
            v0 == vars_view(v@),
            v0 == vars_view(old(v)@),
            distinct_names(v0),
            forall|j: int| 0 <= j < i ==> (#[trigger] v@[j]).0@ != k@,
        decreases v@.len() - i,
    {
        if str_eq(v[i].0.as_str(), k) {
            let key = string_from(k);
            let ghost entry = (key, val);
            v.set(i, (key, val));
            proof {
                let v1 = vars_view(v@);
                assert(v1 =~= v0.update(i as int, (k@, val@)));
                assert(distinct_names(v1)) by {
                    assert forall|a: int, b: int| 0 <= a < b < v1.len() implies #[trigger] v1[a].0 != #[trigger] v1[b].0 by {
                        if a != i && b != i {
                            assert(v0[a].0 != v0[b].0);
                        } else if a == i {
                            assert(v0[a].0 == v0[i as int].0);
                            assert(v0[a].0 != v0[b].0);
                        } else {
                            assert(v0[b].0 == v0[i as int].0);
                            assert(v0[a].0 != v0[b].0);
                        }
                    }
                }
                assert forall|x: Seq<char>| #[trigger] var_lookup(v1, x) == if x == k@ {
                    Some(val@)
                } else {
                    var_lookup(v0, x)
                } by {
                    lemma_lookup_props(v0, x);
                    lemma_lookup_props(v1, x);
                    if x == k@ {
                        assert(v1[i as int].0 == x);
                    } else {
                        if var_lookup(v0, x) is Some {
                            let j = choose|j: int| 0 <= j < v0.len() && v0[j].0 == x;
                            assert(v1[j].0 == x);
                        } else {
                            assert forall|j: int| 0 <= j < v1.len() implies #[trigger] v1[j].0 != x by {
                                if j != i {
                                    assert(v1[j] == v0[j]);
                                }
                            }
                        }
                    }
                }
            }
            return;
        }
        i = i + 1;
    }
    let key = string_from(k);
    v.push((key, val));
    proof {
        let v1 = vars_view(v@);
        assert(v1 =~= v0.push((k@, val@)));
        assert forall|j: int| 0 <= j < v0.len() implies #[trigger] v0[j].0 != k@ by {
            assert(v@[j].0@ == v0[j].0);
        }
        assert(distinct_names(v1));
        assert forall|x: Seq<char>| #[trigger] var_lookup(v1, x) == if x == k@ {
            Some(val@)
        } else {
            var_lookup(v0, x)
        } by {
            lemma_lookup_props(v0, x);
            lemma_lookup_props(v1, x);
            if x == k@ {
                assert(v1[v0.len() as int].0 == x);
            } else {
                if var_lookup(v0, x) is Some {
                    let j = choose|j: int| 0 <= j < v0.len() && v0[j].0 == x;
                    assert(v1[j].0 == x);
                } else {
                    assert forall|j: int| 0 <= j < v1.len() implies #[trigger] v1[j].0 != x by {
                        if j < v0.len() {
                            assert(v1[j] == v0[j]);
                        }
                    }
                }
            }
        }
    }
}

/// The system's preferred locale as a BCP 47 tag, from `sys_locale::get_locale`;
/// `None` where it cannot be read. It depends on the machine and its
/// environment, so nothing is stated of it.
#[verifier::external_body]
fn system_locale() -> Option<String> {
    sys_locale::get_locale()
}

/// The environment additions for a session, with the system locale read
/// from the machine (see `env_for_locale`, which states the result for
/// every locale the machine may report).
pub fn base_env(version: &str, profile_env: &Vec<(String, String)>) -> (r: Vec<(String, String)>)
    requires
        distinct_names(vars_view(profile_env@)),
    ensures
        exists|loc: Option<Seq<char>>| #[trigger] session_env(vars_view(r@), vars_view(profile_env@), loc, version@),
{
    let loc = system_locale();
    match loc {
        Some(l) => env_for_locale(Some(l.as_str()), version, profile_env),
        None => env_for_locale(None, version, profile_env),
    }
}

/// The environment additions for a session: `LANG`, `TERM`, `COLORTERM`,
/// `TERM_PROGRAM` and `TERM_PROGRAM_VERSION`, then the profile's own
/// variables on top (a profile variable wins over a base one).
pub fn env_for_locale(locale: Option<&str>, version: &str, profile_env: &Vec<(String, String)>) -> (r: Vec<(String, String)>)
    requires
        distinct_names(vars_view(profile_env@)),
    ensures
        session_env(vars_view(r@), vars_view(profile_env@), crate::text::opt_str_view(locale), version@),
{
    let loc = match locale {
        Some(l) => chars_of(l),
        None => chars_of("en_US"),
    };
    let dash = chars_of("-");
    let under = chars_of("_");
    proof {
        reveal_strlit("-");
    }
    let mut lang = replace_chars(&loc, &dash, &under);
    append_str(&mut lang, ".UTF-8");
    let mut env: Vec<(String, String)> = Vec::new();
    assert(distinct_names(vars_view(env@)));
    let ghost s0 = vars_view(env@);
    let ghost lang_v = lang@;
    set_var(&mut env, "LANG", string_of(&lang));
    let ghost s1 = vars_view(env@);
    set_var(&mut env, "TERM", string_from("xterm-256color"));
    let ghost s2 = vars_view(env@);
    set_var(&mut env, "COLORTERM", string_from("truecolor"));
    let ghost s3 = vars_view(env@);
    set_var(&mut env, "TERM_PROGRAM", string_from("hyper-revamp"));
    let ghost s4 = vars_view(env@);
    set_var(&mut env, "TERM_PROGRAM_VERSION", string_from(version));
    proof {
        reveal_strlit("LANG");
        reveal_strlit("TERM");
        reveal_strlit("COLORTERM");
        reveal_strlit("TERM_PROGRAM");
        reveal_strlit("TERM_PROGRAM_VERSION");
        assert("LANG"@[0] != "TERM"@[0]);
        assert("LANG"@.len() == 4 && "TERM"@.len() == 4 && "COLORTERM"@.len() == 9);
        assert("TERM_PROGRAM"@.len() == 12 && "TERM_PROGRAM_VERSION"@.len() == 20);
        assert(lang_v == lang_value(crate::text::opt_str_view(locale)));
        assert forall|k: Seq<char>| #[trigger] var_lookup(vars_view(env@), k) == base_value(k, crate::text::opt_str_view(locale), version@) by {
            lemma_lookup_props(s0, k);
            assert(var_lookup(s1, k) == if k == "LANG"@ { Some(lang_v) } else { var_lookup(s0, k) });
            assert(var_lookup(s2, k) == if k == "TERM"@ { Some("xterm-256color"@) } else { var_lookup(s1, k) });
            assert(var_lookup(s3, k) == if k == "COLORTERM"@ { Some("truecolor"@) } else { var_lookup(s2, k) });
            assert(var_lookup(s4, k) == if k == "TERM_PROGRAM"@ { Some("hyper-revamp"@) } else { var_lookup(s3, k) });
            assert(var_lookup(vars_view(env@), k) == if k == "TERM_PROGRAM_VERSION"@ { Some(version@) } else { var_lookup(s4, k) });
        }
    }
    let ghost e0 = vars_view(env@);
    let mut i: usize = 0;
    while i < profile_env.len()
        invariant
            0 <= i <= profile_env@.len(),
            distinct_names(vars_view(env@)),
            distinct_names(vars_view(profile_env@)),
            forall|k: Seq<char>| #[trigger] var_lookup(vars_view(env@), k) == match var_lookup(vars_view(profile_env@).subrange(0, i as int), k) {
                Some(v) => Some(v),
                None => var_lookup(e0, k),
            },
            forall|k: Seq<char>| #[trigger] var_lookup(e0, k) == base_value(k, crate::text::opt_str_view(locale), version@),
        decreases profile_env@.len() - i,
    {
        let v = copy_string(&profile_env[i].1);
        set_var(&mut env, profile_env[i].0.as_str(), v);
        proof {
            let pv = vars_view(profile_env@);
            let pre = pv.subrange(0, i as int);
            let cur = pv.subrange(0, i + 1);
            assert forall|k: Seq<char>| #[trigger] var_lookup(cur, k) == if var_lookup(pre, k) is Some {
                var_lookup(pre, k)
            } else if k == pv[i as int].0 {
                Some(pv[i as int].1)
            } else {
                None
            } by {
                lemma_lookup_props(pre, k);
                lemma_lookup_props(cur, k);
                assert(distinct_names(cur));
                assert(distinct_names(pre));
                if var_lookup(pre, k) is Some {
                    let j = choose|j: int| 0 <= j < pre.len() && pre[j].0 == k;
                    assert(cur[j] == pre[j]);
                } else if k == pv[i as int].0 {
                    assert(cur[i as int].0 == k);
                } else {
                    assert forall|j: int| 0 <= j < cur.len() implies #[trigger] cur[j].0 != k by {
                        if j < i {
                            assert(cur[j] == pre[j]);
                        }
                    }
                }
            }
            assert forall|k: Seq<char>| #[trigger] var_lookup(pre, k) is Some ==> k != pv[i as int].0 by {
                lemma_lookup_props(pre, k);
                if var_lookup(pre, k) is Some {
                    let j = choose|j: int| 0 <= j < pre.len() && pre[j].0 == k;
                    assert(pv[j].0 != pv[i as int].0);
                }
            }
        }
        i = i + 1;
    }
    assert(vars_view(profile_env@).subrange(0, i as int) =~= vars_view(profile_env@));
    env
}

/// The system default shell: `$SHELL` when set and not empty, else
/// `/bin/zsh` on macOS, `%COMSPEC%` (or `cmd.exe`) on Windows, and
/// `/bin/sh`, the one POSIX guarantees, elsewhere.
pub fn default_shell(shell_var: Option<&str>, comspec: Option<&str>, platform: Platform) -> (r: String)
    ensures
        r@ == match shell_var {
            Some(s) if s@.len() > 0 => s@,
            _ => match platform {
                Platform::MacOs => "/bin/zsh"@,
                Platform::Windows => match comspec {
                    Some(c) => c@,
                    None => "cmd.exe"@,
                },
                Platform::Linux => "/bin/sh"@,
            },
        },
{
    match shell_var {
        Some(s) => {
            if s.unicode_len() > 0 {
                return string_from(s);
            }
        },
        None => {},
    }
    match platform {
        Platform::MacOs => string_from("/bin/zsh"),
        Platform::Windows => match comspec {
            Some(c) => string_from(c),
            None => string_from("cmd.exe"),
        },
        Platform::Linux => string_from("/bin/sh"),
    }
}

} // verus!
