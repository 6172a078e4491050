//! Per-profile options: the root config with the meta keys taken out, then
//! the profile's theme, then the profile's own overrides, each applied with
//! a one-level shallow merge (so a profile's `colors.red` does not wipe the
//! theme's `colors.green`; scalars and arrays replace).

use vstd::prelude::*;

use crate::json::{
    lemma_member_remove_other, law_merge_shallow_member, member, shallow_value, unique_keys, JsonV,
    copy_members, merge_shallow, merge_shallow_spec, remove_member, remove_member_exec,
    view_members, Json, Members,
};
use crate::config::{resolved_from, ResolvedConfig};
use crate::keymap_build::entry_of;
use crate::model::ProfileDef;
use crate::text::{opt_str_view, opt_view, string_from};

verus! {

broadcast use vstd::string::group_string_axioms;

/// The root config without the keys that describe profiles and themes
/// rather than options.
pub open spec fn strip_meta(m: Members) -> Members {
    remove_member(
        remove_member(remove_member(remove_member(m, "profiles"@), "themes"@), "defaultProfile"@),
        "defaultTheme"@,
    )
}

/// The theme a profile uses: its own, else the configured default.
pub open spec fn theme_name_spec(profile_theme: Option<Seq<char>>, default_theme: Option<Seq<char>>) -> Option<Seq<char>> {
    match profile_theme {
        Some(t) => Some(t),
        None => default_theme,
    }
}

pub fn theme_name_for(profile: Option<&ProfileDef>, default_theme: Option<&str>) -> (r: Option<String>)
    ensures
        opt_view(r) == theme_name_spec(
            match profile {
                Some(p) => opt_view(p.theme),
                None => None,
            },
            opt_str_view(default_theme),
        ),
{
    match profile {
        Some(p) => match &p.theme {
            Some(t) => {
                return Some(crate::text::copy_string(t));
            },
            None => {},
        },
        None => {},
    }
    match default_theme {
        Some(d) => Some(string_from(d)),
        None => None,
    }
}

/// Root ← theme ← profile overrides.
pub open spec fn resolve_spec(root: Members, theme: Option<Members>, overrides: Option<Members>) -> Members {
    let base = strip_meta(root);
    let themed = match theme {
        Some(t) => merge_shallow_spec(base, t),
        None => base,
    };
    match overrides {
        Some(c) => merge_shallow_spec(themed, c),
        None => themed,
    }
}

/// The merged option members for a profile: `theme` is the serialized
/// theme the profile uses (see [`theme_name_for`]), when one is known.
pub fn resolve_profile_document(
    root_config: &Vec<(String, Json)>,
    profile: Option<&ProfileDef>,
    theme: Option<&Vec<(String, Json)>>,
) -> (r: Vec<(String, Json)>)
    ensures
        view_members(r@) == resolve_spec(
            view_members(root_config@),
            match theme {
                Some(t) => Some(view_members(t@)),
                None => None,
            },
            match profile {
                Some(p) => Some(view_members(p.config@)),
                None => None,
            },
        ),
{
    let mut out = copy_members(root_config);
    out = remove_member_exec(out, "profiles");
    out = remove_member_exec(out, "themes");
    out = remove_member_exec(out, "defaultProfile");
    out = remove_member_exec(out, "defaultTheme");
    match theme {
        Some(t) => merge_shallow(&mut out, t),
        None => {},
    }
    match profile {
        Some(p) => if p.config.len() > 0 {
            merge_shallow(&mut out, &p.config);
        } else {
            assert(view_members(p.config@) =~= Seq::empty());
        },
        None => {},
    }
    out
}

/// A member after one shallow-merge layer: the patch's value, combined with
/// what was below it, when the patch names the key; otherwise unchanged.
pub open spec fn layer(below: Option<JsonV>, patch: Option<JsonV>) -> Option<JsonV> {
    match patch {
        Some(v) => Some(shallow_value(below, v)),
        None => below,
    }
}

pub open spec fn member_of(m: Option<Members>, k: Seq<char>) -> Option<JsonV> {
    match m {
        Some(mm) => member(mm, k),
        None => None,
    }
}

pub open spec fn is_meta_key(k: Seq<char>) -> bool {
    k == "profiles"@ || k == "themes"@ || k == "defaultProfile"@ || k == "defaultTheme"@
}

/// The profile's overrides beat the theme, which beats the root config;
/// objects are combined one level deep at each step. The meta keys of the
/// root config never reach the options.
pub proof fn law_resolve_layers(
    root: Members,
    theme: Option<Members>,
    overrides: Option<Members>,
    k: Seq<char>,
)
    requires
        theme matches Some(t) ==> unique_keys(t),
        overrides matches Some(c) ==> unique_keys(c),
    ensures
        member(resolve_spec(root, theme, overrides), k) == layer(
            layer(
                if is_meta_key(k) {
                    None
                } else {
                    member(root, k)
                },
                member_of(theme, k),
            ),
            member_of(overrides, k),
        ),
{
    let m1 = remove_member(root, "profiles"@);
    let m2 = remove_member(m1, "themes"@);
    let m3 = remove_member(m2, "defaultProfile"@);
    let base = strip_meta(root);
    assert(member(base, k) == if is_meta_key(k) {
        None
    } else {
        member(root, k)
    }) by {
        if k == "defaultTheme"@ {
            crate::json::lemma_member_remove(m3, k);
        } else {
            lemma_member_remove_other(m3, k, "defaultTheme"@);
            if k == "defaultProfile"@ {
                crate::json::lemma_member_remove(m2, k);
            } else {
                lemma_member_remove_other(m2, k, "defaultProfile"@);
                if k == "themes"@ {
                    crate::json::lemma_member_remove(m1, k);
                } else {
                    lemma_member_remove_other(m1, k, "themes"@);
                    if k == "profiles"@ {
                        crate::json::lemma_member_remove(root, k);
                    } else {
                        lemma_member_remove_other(root, k, "profiles"@);
                    }
                }
            }
        }
    }
    let themed = match theme {
        Some(t) => merge_shallow_spec(base, t),
        None => base,
    };
    match theme {
        Some(t) => law_merge_shallow_member(base, t, k),
        None => {},
    }
    match overrides {
        Some(c) => law_merge_shallow_member(themed, c, k),
        None => {},
    }
}

/// Named themes as their serialized members.
pub open spec fn themes_view(t: Seq<(String, Vec<(String, Json)>)>) -> Seq<(Seq<char>, Members)> {
    t.map_values(|p: (String, Vec<(String, Json)>)| (p.0@, view_members(p.1@)))
}

/// The members of the theme named `name`, if there is one.
fn find_theme<'a>(themes: &'a Vec<(String, Vec<(String, Json)>)>, name: &str) -> (r: Option<&'a Vec<(String, Json)>>)
    ensures
        match r {
            Some(t) => entry_of(themes_view(themes@), name@) == Some(view_members(t@)),
            None => entry_of(themes_view(themes@), name@) is None,
        },
{
    let ghost tv = themes_view(themes@);
    let mut i: usize = 0;
    assert(tv.skip(0) =~= tv);
    while i < themes.len()
        invariant
            0 <= i <= themes@.len(),
            tv == themes_view(themes@),
            entry_of(tv, name@) == entry_of(tv.skip(i as int), name@),
        decreases themes@.len() - i,
    {
        assert(tv.skip(i as int)[0] == tv[i as int]);
        assert(tv.skip(i as int).drop_first() =~= tv.skip(i + 1));
        if crate::text::str_eq(themes[i].0.as_str(), name) {
            return Some(&themes[i].1);
        }
        i = i + 1;
    }
    None
}

/// The resolved options of a profile (or of the root config alone when
/// `profile` is `None`): root ← theme ← profile overrides merged as
/// `resolve_spec` says, then read leniently with defaults. The theme is the
/// profile's own or `default_theme`, looked up among `themes` by name; an
/// unknown theme name contributes nothing.
pub fn resolve_profile_config(
    root_config: &Vec<(String, Json)>,
    profile: Option<&ProfileDef>,
    themes: &Vec<(String, Vec<(String, Json)>)>,
    default_theme: Option<&str>,
) -> (r: ResolvedConfig)
    ensures
        resolved_from(
            r,
            resolve_spec(
                view_members(root_config@),
                match theme_name_spec(
                    match profile {
                        Some(p) => opt_view(p.theme),
                        None => None,
                    },
                    opt_str_view(default_theme),
                ) {
                    Some(n) => entry_of(themes_view(themes@), n),
                    None => None,
                },
                match profile {
                    Some(p) => Some(view_members(p.config@)),
                    None => None,
                },
            ),
        ),
{
    let name = theme_name_for(profile, default_theme);
    let theme = match &name {
        Some(n) => find_theme(themes, n.as_str()),
        None => None,
    };
    let doc = resolve_profile_document(root_config, profile, theme);
    ResolvedConfig::from_members(&doc)
}

} // verus!
