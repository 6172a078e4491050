//! The structural part of the config section, read leniently: the profile
//! list, the named themes and the few root options the app reads itself.

use vstd::prelude::*;

use crate::config::{
    field, opt_json, opt_text, str_or, string_list, string_value, strs_view, u16_of_text, bool_value,
};
use crate::json::{json_of_text, parse_json, lemma_view_elems, lemma_view_members, member, view_members, Json, JsonV, Members};
use crate::text::{copy_string, decimal, decimal_chars, parse_usize, str_eq, string_from, string_of};
use crate::model::{ProfileDef, SshProfileDef};
use crate::text::trim;
use crate::theme::{color_from_json, color_names, ColorMap};

verus! {

broadcast use vstd::string::group_string_axioms;

// ---------------------------------------------------------------------------
// Themes
// ---------------------------------------------------------------------------

/// The keys a theme reads as its own options, in the order it writes them
/// back; every other key of a theme is kept as it is.
pub open spec fn theme_keys() -> Seq<Seq<char>> {
    seq![
        "backgroundColor"@,
        "foregroundColor"@,
        "cursorColor"@,
        "cursorAccentColor"@,
        "borderColor"@,
        "selectionColor"@,
        "colors"@,
        "fontFamily"@,
        "uiFontFamily"@,
        "fontSize"@,
        "fontWeight"@,
        "fontWeightBold"@,
        "lineHeight"@,
        "letterSpacing"@,
        "disableLigatures"@,
    ]
}

fn theme_key(i: usize) -> (r: &'static str)
    requires
        i < 15,
    ensures
        r@ == theme_keys()[i as int],
{
    let r = match i {
        0 => "backgroundColor",
        1 => "foregroundColor",
        2 => "cursorColor",
        3 => "cursorAccentColor",
        4 => "borderColor",
        5 => "selectionColor",
        6 => "colors",
        7 => "fontFamily",
        8 => "uiFontFamily",
        9 => "fontSize",
        10 => "fontWeight",
        11 => "fontWeightBold",
        12 => "lineHeight",
        13 => "letterSpacing",
        _ => "disableLigatures",
    };
    proof {
        reveal_strlit("backgroundColor");
        reveal_strlit("foregroundColor");
        reveal_strlit("cursorColor");
        reveal_strlit("cursorAccentColor");
        reveal_strlit("borderColor");
        reveal_strlit("selectionColor");
        reveal_strlit("colors");
        reveal_strlit("fontFamily");
        reveal_strlit("uiFontFamily");
        reveal_strlit("fontSize");
        reveal_strlit("fontWeight");
        reveal_strlit("fontWeightBold");
        reveal_strlit("lineHeight");
        reveal_strlit("letterSpacing");
        reveal_strlit("disableLigatures");
    }
    r
}

/// The colour slots `v` sets, as an object of the set slots in ANSI order.
pub open spec fn color_members_upto(v: JsonV, n: int) -> Members
    decreases n,
{
    if n <= 0 {
        seq![]
    } else {
        color_members_upto(v, n - 1) + match color_from_json(v, n - 1) {
            Some(c) => seq![(color_names()[n - 1], JsonV::Str(c))],
            None => seq![],
        }
    }
}

/// What a theme's own option `i` keeps of the value `v`: a string, a
/// number, a font weight (written back as its decimal) or a boolean of the
/// right kind; the colours as the object of the slots they set, when they
/// set any.
pub open spec fn theme_value(i: int, v: Option<JsonV>) -> Option<JsonV> {
    if i == 6 {
        match v {
            Some(c) => if color_members_upto(c, 16).len() > 0 {
                Some(JsonV::Object(color_members_upto(c, 16)))
            } else {
                None
            },
            None => None,
        }
    } else if i == 9 || i == 12 || i == 13 {
        match v {
            Some(JsonV::Number(t)) => Some(JsonV::Number(t)),
            _ => None,
        }
    } else if i == 10 || i == 11 {
        match v {
            Some(JsonV::Number(t)) => match u16_of_text(t) {
                Some(n) => Some(JsonV::Number(decimal(n as nat))),
                None => None,
            },
            Some(JsonV::Str(s)) => Some(JsonV::Str(s)),
            _ => None,
        }
    } else if i == 14 {
        match v {
            Some(JsonV::Bool(b)) => Some(JsonV::Bool(b)),
            _ => None,
        }
    } else {
        match v {
            Some(JsonV::Str(s)) => Some(JsonV::Str(s)),
            _ => None,
        }
    }
}

/// The theme's own options among the first `n`, in order.
pub open spec fn theme_known_upto(m: Members, n: int) -> Members
    decreases n,
{
    if n <= 0 {
        seq![]
    } else {
        theme_known_upto(m, n - 1) + match theme_value(n - 1, member(m, theme_keys()[n - 1])) {
            Some(v) => seq![(theme_keys()[n - 1], v)],
            None => seq![],
        }
    }
}

/// A theme as it is merged: its own options that are usable, then every
/// other key it carries, in order (so a theme can set `padding` or
/// `cursorShape` too). Anything but an object is an empty theme.
pub open spec fn normalized_theme(v: JsonV) -> Members {
    match v {
        JsonV::Object(m) => theme_known_upto(m, 15) + m.filter(|p: (Seq<char>, JsonV)| !theme_keys().contains(p.0)),
        _ => seq![],
    }
}

fn is_theme_key(k: &str) -> (r: bool)
    ensures
        r == theme_keys().contains(k@),
{
    let mut i: usize = 0;
    while i < 15
        invariant
            0 <= i <= 15,
            forall|j: int| 0 <= j < i ==> theme_keys()[j] != k@,
        decreases 15 - i,
    {
        if str_eq(theme_key(i), k) {
            assert(theme_keys()[i as int] == k@);
            return true;
        }
        i = i + 1;
    }
    assert(theme_keys().len() == 15);
    false
}

/// The object of the colour slots `v` sets.
fn color_members(v: &Json) -> (r: Vec<(String, Json)>)
    ensures
        view_members(r@) == color_members_upto(v@, 16),
{
    let c = ColorMap::from_value(v);
    let slots_arr = c.as_array();
    let mut out: Vec<(String, Json)> = Vec::new();
    let mut i: usize = 0;
    while i < 16
        invariant
            0 <= i <= 16,
            forall|j: int| 0 <= j < 16 ==> #[trigger] crate::theme::slots(c)[j] == color_from_json(v@, j),
            forall|j: int| 0 <= j < 16 ==> #[trigger] crate::theme::slots(c)[j] == match slots_arr@[j] {
                Some(s) => Some(s@),
                None => None,
            },
            view_members(out@) == color_members_upto(v@, i as int),
        decreases 16 - i,
    {
        let name = crate::theme::color_name(i);
        assert(crate::theme::slots(c)[i as int] == color_from_json(v@, i as int));
        let ghost before = view_members(out@);
        match slots_arr[i] {
            Some(s) => {
                let ghost prev = out@;
                let e = (string_from(name), Json::Str(copy_string(s)));
                out.push(e);
                proof {
                    assert(out@ == prev.push(e));
                    crate::json::lemma_view_members_push(prev, e);
                }
            },
            None => {},
        }
        assert(view_members(out@) =~= color_members_upto(v@, i + 1));
        i = i + 1;
    }
    out
}

/// A theme normalized for merging (see `normalized_theme`).
pub fn normalize_theme(v: &Json) -> (r: Vec<(String, Json)>)
    ensures
        view_members(r@) == normalized_theme(v@),
{
    match v {
        Json::Object(m) => {
            let ghost mv = view_members(m@);
            let mut out: Vec<(String, Json)> = Vec::new();
            let mut i: usize = 0;
            while i < 15
                invariant
                    0 <= i <= 15,
                    mv == view_members(m@),
                    view_members(out@) == theme_known_upto(mv, i as int),
                decreases 15 - i,
            {
                let key = theme_key(i);
                let value = field(m, key);
                let ghost before = view_members(out@);
                let kept: Option<Json> = if i == 6 {
                    match value {
                        Some(c) => {
                            let cm = color_members(c);
                            if cm.len() > 0 {
                                Some(Json::Object(cm))
                            } else {
                                None
                            }
                        },
                        None => None,
                    }
                } else if i == 9 || i == 12 || i == 13 {
                    match value {
                        Some(Json::Number(t)) => Some(Json::Number(copy_string(t))),
                        _ => None,
                    }
                } else if i == 10 || i == 11 {
                    match value {
                        Some(Json::Number(t)) => {
                            let cs = crate::text::chars_of(t.as_str());
                            match parse_usize(&cs) {
                                Some(n) => if n <= 65535 {
                                    let d = decimal_chars(n as u64);
                                    Some(Json::Number(string_of(&d)))
                                } else {
                                    None
                                },
                                None => None,
                            }
                        },
                        Some(Json::Str(s)) => Some(Json::Str(copy_string(s))),
                        _ => None,
                    }
                } else if i == 14 {
                    match value {
                        Some(Json::Bool(b)) => Some(Json::Bool(*b)),
                        _ => None,
                    }
                } else {
                    match value {
                        Some(Json::Str(s)) => Some(Json::Str(copy_string(s))),
                        _ => None,
                    }
                };
                proof {
                    assert(match kept {
                        Some(j) => theme_value(i as int, opt_json(value)) == Some(j@),
                        None => theme_value(i as int, opt_json(value)) is None,
                    });
                }
                let ghost prev = out@;
                match kept {
                    Some(j) => {
                        let e = (string_from(key), j);
                        out.push(e);
                        proof {
                            assert(out@ == prev.push(e));
                            crate::json::lemma_view_members_push(prev, e);
                        }
                    },
                    None => {},
                }
                proof {
                    assert(view_members(out@) =~= theme_known_upto(mv, i + 1));
                }
                i = i + 1;
            }
            let ghost known = view_members(out@);
            proof {
                lemma_view_members(m@);
                assert(mv.take(0).filter(|p: (Seq<char>, JsonV)| !theme_keys().contains(p.0)) =~= Seq::<(Seq<char>, JsonV)>::empty());
            }
            let mut j: usize = 0;
            while j < m.len()
                invariant
                    0 <= j <= m@.len(),
                    mv == view_members(m@),
                    mv.len() == m@.len(),
                    forall|t: int| 0 <= t < m@.len() ==> #[trigger] mv[t] == (m@[t].0@, m@[t].1@),
                    view_members(out@) == known + mv.take(j as int).filter(|p: (Seq<char>, JsonV)| !theme_keys().contains(p.0)),
                decreases m@.len() - j,
            {
                let ghost before = view_members(out@);
                proof {
                    assert(mv.take(j + 1) =~= mv.take(j as int).push(mv[j as int]));
                    mv.take(j as int).lemma_filter_push(mv[j as int], |p: (Seq<char>, JsonV)| !theme_keys().contains(p.0));
                }
                if !is_theme_key(m[j].0.as_str()) {
                    let ghost prev = out@;
                    let e = (copy_string(&m[j].0), m[j].1.copy());
                    out.push(e);
                    proof {
                        assert(out@ == prev.push(e));
                        crate::json::lemma_view_members_push(prev, e);
                    }
                }
                j = j + 1;
            }
            proof {
                lemma_view_members(m@);
                assert(mv.take(j as int) =~= mv);
            }
            out
        },
        _ => Vec::new(),
    }
}

// ---------------------------------------------------------------------------
// Profiles
// ---------------------------------------------------------------------------

/// The members of an object; anything else reads as no members at all.
pub open spec fn members_of(v: JsonV) -> Members {
    match v {
        JsonV::Object(m) => m,
        _ => seq![],
    }
}

/// `port`: a number that fits in 16 bits, or a string holding one (around
/// spaces), since the value was once passed to `ssh` as text.
pub open spec fn loose_port(v: Option<JsonV>) -> Option<u16> {
    match v {
        Some(JsonV::Number(t)) => u16_of_text(t),
        Some(JsonV::Str(s)) => u16_of_text(trim(s)),
        _ => None,
    }
}

pub open spec fn opt_strs(o: Option<Vec<String>>) -> Option<Seq<Seq<char>>> {
    match o {
        Some(l) => Some(strs_view(l@)),
        None => None,
    }
}

/// `s` holds the SSH settings read from `v`.
pub open spec fn ssh_from(s: SshProfileDef, v: JsonV) -> bool {
    let m = members_of(v);
    &&& s.host@ == str_or(member(m, "host"@), ""@)
    &&& s.user@ == str_or(member(m, "user"@), ""@)
    &&& s.port == loose_port(member(m, "port"@))
    &&& opt_text(s.identity_file) == string_value(member(m, "identityFile"@))
    &&& s.forward_agent == bool_value(member(m, "forwardAgent"@))
    &&& opt_strs(s.extra_args) == string_list(member(m, "extraArgs"@))
    &&& opt_text(s.auth_type) == string_value(member(m, "authType"@))
    &&& opt_text(s.password) == string_value(member(m, "password"@))
}

/// `p` holds the profile read from `v`.
pub open spec fn profile_from(p: ProfileDef, v: JsonV) -> bool {
    let m = members_of(v);
    &&& p.name@ == str_or(member(m, "name"@), ""@)
    &&& opt_text(p.profile_type) == string_value(member(m, "type"@))
    &&& match member(m, "ssh"@) {
        None => p.ssh is None,
        Some(JsonV::Null) => p.ssh is None,
        Some(sv) => p.ssh matches Some(s) && ssh_from(s, sv),
    }
    &&& opt_text(p.theme) == string_value(member(m, "theme"@))
    &&& opt_text(p.color) == string_value(member(m, "color"@))
    &&& view_members(p.config@) == match member(m, "config"@) {
        Some(JsonV::Object(c)) => c,
        _ => seq![],
    }
}

fn opt_string_of(v: Option<&Json>) -> (r: Option<String>)
    ensures
        opt_text(r) == string_value(opt_json(v)),
{
    match v {
        Some(Json::Str(s)) => Some(copy_string(s)),
        _ => None,
    }
}

fn opt_bool_of(v: Option<&Json>) -> (r: Option<bool>)
    ensures
        r == bool_value(opt_json(v)),
{
    match v {
        Some(Json::Bool(b)) => Some(*b),
        _ => None,
    }
}

fn string_of_or_empty(v: Option<&Json>) -> (r: String)
    ensures
        r@ == str_or(opt_json(v), ""@),
{
    match v {
        Some(Json::Str(s)) => copy_string(s),
        _ => string_from(""),
    }
}

fn u16_of_chars(cs: &Vec<char>) -> (r: Option<u16>)
    ensures
        r == u16_of_text(cs@),
{
    match parse_usize(cs) {
        Some(n) => if n <= 65535 {
            Some(n as u16)
        } else {
            None
        },
        None => None,
    }
}

fn port_of(v: Option<&Json>) -> (r: Option<u16>)
    ensures
        r == loose_port(opt_json(v)),
{
    match v {
        Some(Json::Number(t)) => u16_of_chars(&crate::text::chars_of(t.as_str())),
        Some(Json::Str(s)) => {
            let cs = crate::text::chars_of(s.as_str());
            u16_of_chars(&crate::text::trim_chars(&cs))
        },
        _ => None,
    }
}

/// The members of an object value, or none.
fn members_ref<'a>(v: &'a Json, empty: &'a Vec<(String, Json)>) -> (r: &'a Vec<(String, Json)>)
    requires
        empty@.len() == 0,
    ensures
        view_members(r@) == members_of(v@),
{
    match v {
        Json::Object(m) => m,
        _ => {
            assert(view_members(empty@) =~= Seq::<(Seq<char>, JsonV)>::empty());
            empty
        },
    }
}

impl SshProfileDef {
    /// The SSH settings of a profile, each read on its own.
    pub fn from_json(v: &Json) -> (r: SshProfileDef)
        ensures
            ssh_from(r, v@),
    {
        let empty: Vec<(String, Json)> = Vec::new();
        let m = members_ref(v, &empty);
        let extra_args = match crate::config::field(m, "extraArgs") {
            Some(Json::Array(items)) => {
                let ghost iv = crate::json::view_elems(items@);
                proof {
                    lemma_view_elems(items@);
                }
                let mut out: Vec<String> = Vec::new();
                let mut ok = true;
                let mut i: usize = 0;
                while i < items.len()
                    invariant
                        0 <= i <= items@.len(),
                        iv == crate::json::view_elems(items@),
                        iv.len() == items@.len(),
                        forall|j: int| 0 <= j < items@.len() ==> #[trigger] iv[j] == items@[j]@,
                        ok ==> out@.len() == i,
                        ok ==> forall|j: int| 0 <= j < i ==> #[trigger] iv[j] is Str && (out@[j])@ == crate::config::str_of(iv[j]),
                        !ok ==> exists|j: int| 0 <= j < items@.len() && !(#[trigger] iv[j] is Str),
                    decreases items@.len() - i,
                {
                    match &items[i] {
                        Json::Str(x) => {
                            if ok {
                                out.push(copy_string(x));
                            }
                        },
                        _ => {
                            assert(!(iv[i as int] is Str));
                            ok = false;
                        },
                    }
                    i = i + 1;
                }
                if ok {
                    assert(strs_view(out@) =~= iv.map_values(|j: JsonV| crate::config::str_of(j)));
                    Some(out)
                } else {
                    None
                }
            },
            _ => None,
        };
        SshProfileDef {
            host: string_of_or_empty(crate::config::field(m, "host")),
            user: string_of_or_empty(crate::config::field(m, "user")),
            port: port_of(crate::config::field(m, "port")),
            identity_file: opt_string_of(crate::config::field(m, "identityFile")),
            forward_agent: opt_bool_of(crate::config::field(m, "forwardAgent")),
            extra_args,
            auth_type: opt_string_of(crate::config::field(m, "authType")),
            password: opt_string_of(crate::config::field(m, "password")),
        }
    }
}

impl ProfileDef {
    /// One entry of the profile list, each key read on its own; an entry
    /// that is not an object is an unnamed profile with no settings.
    pub fn from_json(v: &Json) -> (r: ProfileDef)
        ensures
            profile_from(r, v@),
    {
        let empty: Vec<(String, Json)> = Vec::new();
        let m = members_ref(v, &empty);
        let ssh = match crate::config::field(m, "ssh") {
            None => None,
            Some(Json::Null) => None,
            Some(sv) => Some(SshProfileDef::from_json(sv)),
        };
        let config = match crate::config::field(m, "config") {
            Some(Json::Object(c)) => crate::json::copy_members(c),
            _ => {
                let e: Vec<(String, Json)> = Vec::new();
                assert(view_members(e@) =~= Seq::<(Seq<char>, JsonV)>::empty());
                e
            },
        };
        ProfileDef {
            name: string_of_or_empty(crate::config::field(m, "name")),
            profile_type: opt_string_of(crate::config::field(m, "type")),
            ssh,
            theme: opt_string_of(crate::config::field(m, "theme")),
            color: opt_string_of(crate::config::field(m, "color")),
            config,
        }
    }
}

// ---------------------------------------------------------------------------
// The config section
// ---------------------------------------------------------------------------

/// The config section as the app reads it structurally; every other option
/// is read from the merged members (see `ResolvedConfig`).
#[derive(Debug)]
pub struct TypedRoot {
    pub default_profile: Option<String>,
    pub default_theme: Option<String>,
    pub restore_session: Option<bool>,
    pub quit_on_last_window_closed: Option<bool>,
    pub default_ssh_app: Option<bool>,
    pub profiles: Vec<ProfileDef>,
    /// The named themes of the section, normalized for merging.
    pub themes: Option<Vec<(String, Vec<(String, Json)>)>>,
}

impl Default for TypedRoot {
    /// No config section at all.
    fn default() -> (r: TypedRoot)
        ensures
            r.default_profile is None,
            r.default_theme is None,
            r.restore_session is None,
            r.quit_on_last_window_closed is None,
            r.default_ssh_app is None,
            r.profiles@.len() == 0,
            r.themes is None,
    {
        TypedRoot {
            default_profile: None,
            default_theme: None,
            restore_session: None,
            quit_on_last_window_closed: None,
            default_ssh_app: None,
            profiles: Vec::new(),
            themes: None,
        }
    }
}

/// `ps` are the profiles read from the value of `profiles`: one per entry
/// of an array, none otherwise.
pub open spec fn profiles_from(ps: Seq<ProfileDef>, v: Option<JsonV>) -> bool {
    match v {
        Some(JsonV::Array(items)) => ps.len() == items.len() && forall|i: int|
            0 <= i < items.len() ==> profile_from(#[trigger] ps[i], items[i]),
        _ => ps.len() == 0,
    }
}

/// `r` holds the config section read from `v`, its profile list aside:
/// `defaultTheme` falls back to `default` when unset or empty, and every
/// theme of `themes` is kept, normalized. Anything but an object reads as
/// an empty section.
pub open spec fn root_fields_from(r: TypedRoot, v: JsonV) -> bool {
    let m = members_of(v);
    &&& opt_text(r.default_profile) == string_value(member(m, "defaultProfile"@))
    &&& opt_text(r.default_theme) == Some(
        match string_value(member(m, "defaultTheme"@)) {
            Some(t) => if t.len() > 0 {
                t
            } else {
                "default"@
            },
            None => "default"@,
        },
    )
    &&& r.restore_session == bool_value(member(m, "restoreSession"@))
    &&& r.quit_on_last_window_closed == bool_value(member(m, "quitOnLastWindowClosed"@))
    &&& r.default_ssh_app == bool_value(member(m, "defaultSSHApp"@))
    &&& match member(m, "themes"@) {
        Some(JsonV::Object(t)) => r.themes matches Some(ts) && ts@.len() == t.len() && forall|i: int|
            0 <= i < t.len() ==> (#[trigger] ts@[i]).0@ == t[i].0 && view_members(ts@[i].1@) == normalized_theme(t[i].1),
        _ => r.themes is None,
    }
}

/// `r` holds the config section read from `v`, every entry of `profiles`
/// included (an entry that is not an object is an unnamed profile).
pub open spec fn root_from(r: TypedRoot, v: JsonV) -> bool {
    &&& root_fields_from(r, v)
    &&& profiles_from(r.profiles@, member(members_of(v), "profiles"@))
}

impl TypedRoot {
    /// Read the config section.
    pub fn from_json(v: &Json) -> (r: TypedRoot)
        ensures
            root_from(r, v@),
    {
        let empty: Vec<(String, Json)> = Vec::new();
        let m = members_ref(v, &empty);
        let profiles = match crate::config::field(m, "profiles") {
            Some(Json::Array(items)) => {
                proof {
                    lemma_view_elems(items@);
                }
                let mut out: Vec<ProfileDef> = Vec::new();
                let mut i: usize = 0;
                while i < items.len()
                    invariant
                        0 <= i <= items@.len(),
                        crate::json::view_elems(items@).len() == items@.len(),
                        forall|j: int| 0 <= j < items@.len() ==> #[trigger] crate::json::view_elems(items@)[j] == items@[j]@,
                        out@.len() == i,
                        forall|j: int| 0 <= j < i ==> profile_from(#[trigger] out@[j], items@[j]@),
                    decreases items@.len() - i,
                {
                    out.push(ProfileDef::from_json(&items[i]));
                    i = i + 1;
                }
                out
            },
            _ => Vec::new(),
        };
        let themes = match crate::config::field(m, "themes") {
            Some(Json::Object(t)) => {
                proof {
                    lemma_view_members(t@);
                }
                let mut out: Vec<(String, Vec<(String, Json)>)> = Vec::new();
                let mut i: usize = 0;
                while i < t.len()
                    invariant
                        0 <= i <= t@.len(),
                        view_members(t@).len() == t@.len(),
                        forall|j: int| 0 <= j < t@.len() ==> #[trigger] view_members(t@)[j] == (t@[j].0@, t@[j].1@),
                        out@.len() == i,
                        forall|j: int| 0 <= j < i ==> (#[trigger] out@[j]).0@ == t@[j].0@ && view_members(out@[j].1@) == normalized_theme(t@[j].1@),
                    decreases t@.len() - i,
                {
                    out.push((copy_string(&t[i].0), normalize_theme(&t[i].1)));
                    i = i + 1;
                }
                Some(out)
            },
            _ => None,
        };
        let default_theme = match crate::config::field(m, "defaultTheme") {
            Some(Json::Str(t)) => if t.as_str().unicode_len() > 0 {
                copy_string(t)
            } else {
                string_from("default")
            },
            _ => string_from("default"),
        };
        TypedRoot {
            default_profile: opt_string_of(crate::config::field(m, "defaultProfile")),
            default_theme: Some(default_theme),
            restore_session: opt_bool_of(crate::config::field(m, "restoreSession")),
            quit_on_last_window_closed: opt_bool_of(crate::config::field(m, "quitOnLastWindowClosed")),
            default_ssh_app: opt_bool_of(crate::config::field(m, "defaultSSHApp")),
            profiles,
            themes,
        }
    }
}

/// A theme file's JSON text as theme members: the parser's message when it
/// is not JSON, else the theme's known keys (see [`normalized_theme`]).
pub fn theme_of_text(text: &str) -> (r: Result<Vec<(String, Json)>, String>)
    ensures
        match json_of_text(text@) {
            Ok(v) => r matches Ok(m) && view_members(m@) == normalized_theme(v),
            Err(e) => r matches Err(m) && m@ == e,
        },
{
    match parse_json(text) {
        Ok(v) => Ok(normalize_theme(&v)),
        Err(e) => Err(e),
    }
}

} // verus!
