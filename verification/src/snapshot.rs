//! One immutable view of the configuration: the documents, the config
//! section, the theme registry and the keymap, rebuilt whole on every
//! change.

use vstd::prelude::*;

use crate::config::{opt_json, resolved_from, str_of, ResolvedConfig};
use crate::json::{
    format_json, json_of_text, json_pretty, parse_json, root_error, validate_root,
    deep_merge, deep_merge_spec, lemma_view_elems, lemma_view_members, member, view_members, Json, JsonV,
    Members,
};
use crate::keymap::{Command, KeyChord, OneOrMany};
use crate::keymap_build::{
    bindings_view, build_keymap, entry_of, keymap_out, lemma_entry_props, lemma_entry_push, names_distinct,
    resolved_table, section_view,
};
use crate::model::{default_profile_name, default_profile_spec, normalize_profiles, profile_names, profiles_normalized, ProfileDef};
use crate::platform::Platform;
use crate::resolve::{resolve_profile_config, resolve_spec, theme_name_spec, themes_view};
use crate::text::{copy_string, opt_str_view, opt_view, str_eq, string_from};
use crate::typed_root::{members_of, normalized_theme, profiles_from, root_fields_from, root_from, TypedRoot};

verus! {

broadcast use vstd::string::group_string_axioms;

// ---------------------------------------------------------------------------
// The theme registry
// ---------------------------------------------------------------------------

/// Theme names in registry order.
pub open spec fn theme_names(t: Seq<(String, Vec<(String, Json)>)>) -> Seq<Seq<char>> {
    t.map_values(|p: (String, Vec<(String, Json)>)| p.0@)
}

/// Register a theme: one of the same name is replaced where it stands, a
/// new one goes last.
pub fn register_theme(all: &mut Vec<(String, Vec<(String, Json)>)>, name: String, theme: Vec<(String, Json)>)
    requires
        names_distinct(themes_view(old(all)@)),
    ensures
        names_distinct(themes_view(final(all)@)),
        forall|k: Seq<char>| #[trigger] entry_of(themes_view(final(all)@), k) == if k == name@ {
            Some(view_members(theme@))
        } else {
            entry_of(themes_view(old(all)@), k)
        },
        theme_names(final(all)@) == if entry_of(themes_view(old(all)@), name@) is Some {
            theme_names(old(all)@)
        } else {
            theme_names(old(all)@).push(name@)
        },
{
    let ghost v0 = themes_view(all@);
    let ghost n0 = theme_names(all@);
    let ghost kv = name@;
    let ghost xv = view_members(theme@);
    proof {
        lemma_entry_props(v0, kv);
    }
    let mut i: usize = 0;
    while i < all.len()
        invariant
            0 <= i <= all@.len(),
            v0 == themes_view(all@),
            v0 == themes_view(old(all)@),
            n0 == theme_names(all@),
            n0 == theme_names(old(all)@),
            names_distinct(v0),
            kv == name@,
            xv == view_members(theme@),
            entry_of(v0, kv) is None <==> forall|t: int| 0 <= t < v0.len() ==> #[trigger] v0[t].0 != kv,
            forall|j: int| 0 <= j < i ==> (#[trigger] all@[j]).0@ != kv,
        decreases all@.len() - i,
    {
        if str_eq(all[i].0.as_str(), name.as_str()) {
            all.set(i, (name, theme));
            proof {
                let v1 = themes_view(all@);
                assert(v1 =~= v0.update(i as int, (kv, xv)));
                assert(theme_names(all@) =~= n0);
                assert(v0[i as int].0 == kv);
                assert forall|a: int, b: int| 0 <= a < b < v1.len() implies #[trigger] v1[a].0 != #[trigger] v1[b].0 by {
                    assert(v0[a].0 != v0[b].0);
                }
                assert forall|k: Seq<char>| #[trigger] entry_of(v1, k) == if k == kv {
                    Some(xv)
                } else {
                    entry_of(v0, k)
                } by {
                    lemma_entry_props(v0, k);
                    lemma_entry_props(v1, k);
                    if k == kv {
                        assert(v1[i as int].0 == k);
                    } else if entry_of(v0, k) is Some {
                        let j = choose|j: int| 0 <= j < v0.len() && v0[j].0 == k;
                        assert(v1[j].0 == k);
                    } else {
                        assert forall|j: int| 0 <= j < v1.len() implies #[trigger] v1[j].0 != k by {
                            if j != i {
                                assert(v1[j] == v0[j]);
                            }
                        }
                    }
                }
            }
            return;
        }
        i = i + 1;
    }
    all.push((name, theme));
    proof {
        let v1 = themes_view(all@);
        assert(v1 =~= v0.push((kv, xv)));
        assert(theme_names(all@) =~= n0.push(kv));
        assert forall|j: int| 0 <= j < v0.len() implies #[trigger] v0[j].0 != kv by {
            assert(all@[j].0@ == v0[j].0);
        }
        assert forall|k: Seq<char>| #[trigger] entry_of(v1, k) == if k == kv {
            Some(xv)
        } else {
            entry_of(v0, k)
        } by {
            lemma_entry_push(v0, (kv, xv), k);
            lemma_entry_props(v0, k);
        }
    }
}

/// Lay the themes of `layer` over the registry, in order.
pub fn register_themes(all: &mut Vec<(String, Vec<(String, Json)>)>, layer: &Vec<(String, Vec<(String, Json)>)>)
    requires
        names_distinct(themes_view(old(all)@)),
        names_distinct(themes_view(layer@)),
    ensures
        names_distinct(themes_view(final(all)@)),
        forall|k: Seq<char>| #[trigger] entry_of(themes_view(final(all)@), k) == match entry_of(themes_view(layer@), k) {
            Some(t) => Some(t),
            None => entry_of(themes_view(old(all)@), k),
        },
{
    let ghost a0 = themes_view(all@);
    let ghost lv = themes_view(layer@);
    let mut i: usize = 0;
    while i < layer.len()
        invariant
            0 <= i <= layer@.len(),
            lv == themes_view(layer@),
            a0 == themes_view(old(all)@),
            names_distinct(lv),
            names_distinct(themes_view(all@)),
            forall|k: Seq<char>| #[trigger] entry_of(themes_view(all@), k) == match entry_of(lv.take(i as int), k) {
                Some(t) => Some(t),
                None => entry_of(a0, k),
            },
        decreases layer@.len() - i,
    {
        register_theme(all, copy_string(&layer[i].0), crate::json::copy_members(&layer[i].1));
        proof {
            assert(lv.take(i + 1) =~= lv.take(i as int).push(lv[i as int]));
            assert forall|k: Seq<char>| #[trigger] entry_of(themes_view(all@), k) == match entry_of(lv.take(i + 1), k) {
                Some(t) => Some(t),
                None => entry_of(a0, k),
            } by {
                lemma_entry_push(lv.take(i as int), lv[i as int], k);
                lemma_entry_props(lv.take(i as int), k);
                if k == lv[i as int].0 {
                    assert forall|j: int| 0 <= j < i implies #[trigger] lv.take(i as int)[j].0 != k by {
                        assert(lv[j].0 != lv[i as int].0);
                    }
                }
            }
        }
        i = i + 1;
    }
    assert(lv.take(i as int) =~= lv);
}

// ---------------------------------------------------------------------------
// The keymaps section
// ---------------------------------------------------------------------------

/// The bindings of one command: a string, or an array of strings.
pub open spec fn binding_list(v: JsonV) -> Option<Seq<Seq<char>>> {
    match v {
        JsonV::Str(s) => Some(seq![s]),
        JsonV::Array(items) => if forall|i: int| 0 <= i < items.len() ==> #[trigger] items[i] is Str {
            Some(items.map_values(|j: JsonV| str_of(j)))
        } else {
            None
        },
        _ => None,
    }
}

/// The user's keymaps section: an object whose every value is a binding
/// or a list of them; anything else (one bad entry included) is no user
/// bindings at all.
pub open spec fn keymaps_spec(v: Option<JsonV>) -> Seq<(Seq<char>, Seq<Seq<char>>)> {
    match v {
        Some(JsonV::Object(m)) => if forall|i: int| 0 <= i < m.len() ==> #[trigger] binding_list(m[i].1) is Some {
            m.map_values(|p: (Seq<char>, JsonV)| (p.0, binding_list(p.1)->0))
        } else {
            seq![]
        },
        _ => seq![],
    }
}

fn binding_of(v: &Json) -> (r: Option<OneOrMany>)
    ensures
        match r {
            Some(b) => binding_list(v@) == Some(b.bindings()),
            None => binding_list(v@) is None,
        },
{
    match v {
        Json::Str(s) => Some(OneOrMany::One(copy_string(s))),
        Json::Array(items) => {
            let ghost iv = crate::json::view_elems(items@);
            proof {
                lemma_view_elems(items@);
            }
            let mut out: Vec<String> = Vec::new();
            let mut i: usize = 0;
            while i < items.len()
                invariant
                    0 <= i <= items@.len(),
                    iv == crate::json::view_elems(items@),
                    v@ == JsonV::Array(iv),
                    iv.len() == items@.len(),
                    forall|j: int| 0 <= j < items@.len() ==> #[trigger] iv[j] == items@[j]@,
                    out@.len() == i,
                    forall|j: int| 0 <= j < i ==> #[trigger] iv[j] is Str && (out@[j])@ == str_of(iv[j]),
                decreases items@.len() - i,
            {
                match &items[i] {
                    Json::Str(s) => out.push(copy_string(s)),
                    _ => {
                        assert(!(iv[i as int] is Str));
                        assert(!(forall|j: int| 0 <= j < iv.len() ==> #[trigger] iv[j] is Str));
                        return None;
                    },
                }
                i = i + 1;
            }
            let r = OneOrMany::Many(out);
            assert(r.bindings() =~= iv.map_values(|j: JsonV| str_of(j)));
            Some(r)
        },
        _ => None,
    }
}

/// The user's keymaps section (see `keymaps_spec`).
pub fn keymaps_section(v: Option<&Json>) -> (r: Vec<(String, OneOrMany)>)
    ensures
        section_view(r@) == keymaps_spec(opt_json(v)),
{
    match v {
        Some(Json::Object(m)) => {
            let ghost mv = view_members(m@);
            proof {
                lemma_view_members(m@);
            }
            let mut out: Vec<(String, OneOrMany)> = Vec::new();
            let mut i: usize = 0;
            while i < m.len()
                invariant
                    0 <= i <= m@.len(),
                    mv == view_members(m@),
                    opt_json(v) == Some(JsonV::Object(mv)),
                    mv.len() == m@.len(),
                    forall|j: int| 0 <= j < m@.len() ==> #[trigger] mv[j] == (m@[j].0@, m@[j].1@),
                    out@.len() == i,
                    forall|j: int| 0 <= j < i ==> binding_list(#[trigger] mv[j].1) is Some && section_view(out@)[j] == (
                    mv[j].0, binding_list(mv[j].1)->0),
                decreases m@.len() - i,
            {
                match binding_of(&m[i].1) {
                    Some(b) => {
                        let ghost prev = out@;
                        out.push((copy_string(&m[i].0), b));
                        proof {
                            assert forall|j: int| 0 <= j < i + 1 implies binding_list(#[trigger] mv[j].1) is Some
                                && section_view(out@)[j] == (mv[j].0, binding_list(mv[j].1)->0) by {
                                if j < i {
                                    assert(out@[j] == prev[j]);
                                }
                            }
                        }
                    },
                    None => {
                        assert(mv[i as int].1 == m@[i as int].1@);
                        assert(binding_list(mv[i as int].1) is None);
                        assert(!(forall|j: int| 0 <= j < mv.len() ==> #[trigger] binding_list(mv[j].1) is Some));
                        let e: Vec<(String, OneOrMany)> = Vec::new();
                        assert(section_view(e@) =~= Seq::<(Seq<char>, Seq<Seq<char>>)>::empty());
                        return e;
                    },
                }
                i = i + 1;
            }
            assert(section_view(out@) =~= mv.map_values(|p: (Seq<char>, JsonV)| (p.0, binding_list(p.1)->0)));
            out
        },
        _ => {
            let e: Vec<(String, OneOrMany)> = Vec::new();
            assert(section_view(e@) =~= Seq::<(Seq<char>, Seq<Seq<char>>)>::empty());
            e
        },
    }
}

/// Whether no command is named twice.
pub fn section_names_distinct(s: &Vec<(String, OneOrMany)>) -> (r: bool)
    ensures
        r == names_distinct(section_view(s@)),
{
    let ghost sv = section_view(s@);
    let mut i: usize = 0;
    while i < s.len()
        invariant
            0 <= i <= s@.len(),
            sv == section_view(s@),
            forall|a: int, b: int| 0 <= a < b < s@.len() && a < i ==> #[trigger] sv[a].0 != #[trigger] sv[b].0,
        decreases s@.len() - i,
    {
        let mut j: usize = i + 1;
        while j < s.len()
            invariant
                i < s@.len(),
                i + 1 <= j <= s@.len(),
                sv == section_view(s@),
                forall|a: int, b: int| 0 <= a < b < s@.len() && a < i ==> #[trigger] sv[a].0 != #[trigger] sv[b].0,
                forall|b: int| i < b < j ==> sv[i as int].0 != #[trigger] sv[b].0,
            decreases s@.len() - j,
        {
            if str_eq(s[i].0.as_str(), s[j].0.as_str()) {
                assert(sv[i as int].0 == sv[j as int].0);
                return false;
            }
            j = j + 1;
        }
        i = i + 1;
    }
    true
}

// ---------------------------------------------------------------------------
// The snapshot
// ---------------------------------------------------------------------------

/// One immutable, fully read view of the config file, the themes and the
/// keymap.
pub struct ConfigSnapshot {
    /// The defaults with the user's file merged over them: what the app reads.
    pub document: Json,
    /// The user's file as parsed, with no defaults folded in: saves start
    /// from it, so unknown keys survive and defaults never get written.
    pub user_document: Json,
    /// The user's file as text, when it exists.
    pub user_text: Option<String>,
    pub root: TypedRoot,
    /// Every theme by name, normalized for merging.
    pub themes: Vec<(String, Vec<(String, Json)>)>,
    pub keymap: Vec<(KeyChord, Command)>,
    /// Why the file could not be read or parsed, when it could not.
    pub parse_error: Option<String>,
    pub generation: u64,
}

/// The user's keymap section as used: the document's, unless it names a
/// command twice (which a parsed JSON object cannot).
pub open spec fn user_keymaps(doc: JsonV) -> Seq<(Seq<char>, Seq<Seq<char>>)> {
    let k = keymaps_spec(member(members_of(doc), "keymaps"@));
    if names_distinct(k) {
        k
    } else {
        seq![]
    }
}

/// The config section of a merged document as the snapshot holds it:
/// read leniently, with the profile list normalized (never empty, every
/// profile named). Without a config section nothing is set but the one
/// `default` profile.
pub open spec fn snapshot_root(r: TypedRoot, doc: JsonV) -> bool {
    match member(members_of(doc), "config"@) {
        Some(c) => root_fields_from(r, c) && exists|raw: Seq<ProfileDef>|
            profiles_from(raw, member(members_of(c), "profiles"@)) && #[trigger] profiles_normalized(raw, r.profiles@),
        None => r.default_profile is None && r.default_theme is None && r.restore_session is None
            && r.quit_on_last_window_closed is None && r.default_ssh_app is None && r.themes is None
            && profiles_normalized(seq![], r.profiles@),
    }
}

/// The themes a config section adds (or replaces) by name; a section that
/// names a theme twice (which a parsed JSON object cannot) adds none.
pub open spec fn config_theme_entry(r: TypedRoot, k: Seq<char>) -> Option<Members> {
    match r.themes {
        Some(ts) => if names_distinct(themes_view(ts@)) {
            entry_of(themes_view(ts@), k)
        } else {
            None
        },
        None => None,
    }
}

impl ConfigSnapshot {
    /// Build the snapshot from what was read: the default document, the
    /// user's document (empty when the file is missing or unreadable), the
    /// bundled and user-file themes already layered in that order, and the
    /// platform's default keymap. Themes of the config section replace those
    /// of the same name; the keymap is the defaults with the user's section
    /// over them.
    pub fn assemble(
        defaults: &Json,
        user_document: Json,
        user_text: Option<String>,
        parse_error: Option<String>,
        base_themes: Vec<(String, Vec<(String, Json)>)>,
        default_keymap: &Vec<(String, OneOrMany)>,
        platform: Platform,
        generation: u64,
    ) -> (r: ConfigSnapshot)
        requires
            names_distinct(themes_view(base_themes@)),
            names_distinct(section_view(default_keymap@)),
        ensures
            r.document@ == deep_merge_spec(defaults@, user_document@),
            r.user_document@ == user_document@,
            r.user_text == user_text,
            r.parse_error == parse_error,
            r.generation == generation,
            snapshot_root(r.root, r.document@),
            names_distinct(themes_view(r.themes@)),
            forall|k: Seq<char>| #[trigger] entry_of(themes_view(r.themes@), k) == match config_theme_entry(r.root, k) {
                Some(t) => Some(t),
                None => entry_of(themes_view(base_themes@), k),
            },
            exists|t: Seq<(Seq<char>, Seq<Seq<char>>)>| #[trigger] resolved_table(t, section_view(default_keymap@), user_keymaps(r.document@))
                && bindings_view(r.keymap@) == keymap_out(t, platform),
    {
        let document = deep_merge(defaults, &user_document);
        let empty: Vec<(String, Json)> = Vec::new();
        let doc_members: &Vec<(String, Json)> = match &document {
            Json::Object(m) => m,
            _ => {
                assert(view_members(empty@) =~= Seq::<(Seq<char>, JsonV)>::empty());
                &empty
            },
        };
        assert(view_members(doc_members@) == members_of(document@));
        let mut root = match crate::config::field(doc_members, "config") {
            Some(c) => TypedRoot::from_json(c),
            None => TypedRoot::default(),
        };
        let ghost raw = root.profiles@;
        normalize_profiles(&mut root.profiles);
        let mut themes = base_themes;
        let ghost b0 = themes_view(themes@);
        match &root.themes {
            Some(ts) => {
                if section_theme_names_distinct(ts) {
                    register_themes(&mut themes, ts);
                }
            },
            None => {},
        }
        let user_section = keymaps_section(crate::config::field(doc_members, "keymaps"));
        let ghost uk = user_keymaps(document@);
        let keymap = if section_names_distinct(&user_section) {
            assert(section_view(user_section@) == uk);
            build_keymap(default_keymap, &user_section, platform)
        } else {
            let none: Vec<(String, OneOrMany)> = Vec::new();
            assert(section_view(none@) =~= Seq::<(Seq<char>, Seq<Seq<char>>)>::empty());
            assert(section_view(none@) == uk);
            build_keymap(default_keymap, &none, platform)
        };
        ConfigSnapshot {
            document,
            user_document,
            user_text,
            root,
            themes,
            keymap,
            parse_error,
            generation,
        }
    }

    /// The profile opened when none is named: the configured default when
    /// a profile of that name exists, else the first profile.
    pub fn default_profile_name(&self) -> (r: String)
        ensures
            r@ == default_profile_spec(opt_view(self.root.default_profile), profile_names(self.root.profiles@)),
    {
        match &self.root.default_profile {
            Some(n) => default_profile_name(Some(n.as_str()), self.root.profiles.as_slice()),
            None => default_profile_name(None, self.root.profiles.as_slice()),
        }
    }

    /// The first profile named `name`.
    pub fn profile(&self, name: &str) -> (r: Option<&ProfileDef>)
        ensures
            match r {
                Some(p) => first_named(self.root.profiles@, name@) == Some(*p),
                None => first_named(self.root.profiles@, name@) is None,
            },
    {
        let ghost ps = self.root.profiles@;
        let mut i: usize = 0;
        assert(ps.skip(0) =~= ps);
        while i < self.root.profiles.len()
            invariant
                0 <= i <= self.root.profiles@.len(),
                ps == self.root.profiles@,
                first_named(ps, name@) == first_named(ps.skip(i as int), name@),
            decreases self.root.profiles@.len() - i,
        {
            assert(ps.skip(i as int)[0] == ps[i as int]);
            assert(ps.skip(i as int).drop_first() =~= ps.skip(i + 1));
            if str_eq(self.root.profiles[i].name.as_str(), name) {
                return Some(&self.root.profiles[i]);
            }
            i = i + 1;
        }
        None
    }

    /// The members the options of profile `p` are read from: the config
    /// section, `p`'s theme (its own, else the default theme) and `p`'s own
    /// overrides, merged as `resolve_spec` says.
    pub open spec fn options_for(self, p: Option<ProfileDef>) -> Members {
        resolve_spec(
            match member(members_of(self.document@), "config"@) {
                Some(JsonV::Object(c)) => c,
                _ => seq![],
            },
            match theme_name_spec(
                match p {
                    Some(q) => opt_view(q.theme),
                    None => None,
                },
                opt_view(self.root.default_theme),
            ) {
                Some(n) => entry_of(themes_view(self.themes@), n),
                None => None,
            },
            match p {
                Some(q) => Some(view_members(q.config@)),
                None => None,
            },
        )
    }

    /// The options of the first profile named `profile_name` (of the
    /// default profile when none is named), read from `options_for`; a
    /// name no profile has gives the section's own options.
    pub fn resolved(&self, profile_name: Option<&str>) -> (r: ResolvedConfig)
        ensures
            resolved_from(
                r,
                self.options_for(
                    first_named(
                        self.root.profiles@,
                        match profile_name {
                            Some(n) => n@,
                            None => default_profile_spec(opt_view(self.root.default_profile), profile_names(self.root.profiles@)),
                        },
                    ),
                ),
            ),
    {
        let name = match profile_name {
            Some(n) => string_from(n),
            None => self.default_profile_name(),
        };
        let profile = self.profile(name.as_str());
        let empty: Vec<(String, Json)> = Vec::new();
        assert(view_members(empty@) =~= Seq::<(Seq<char>, JsonV)>::empty());
        let root_members: &Vec<(String, Json)> = match &self.document {
            Json::Object(m) => match crate::config::field(m, "config") {
                Some(Json::Object(c)) => c,
                _ => &empty,
            },
            _ => &empty,
        };
        let default_theme = match &self.root.default_theme {
            Some(t) => Some(t.as_str()),
            None => None,
        };
        resolve_profile_config(root_members, profile, &self.themes, default_theme)
    }
}

/// The first profile named `name`.
pub open spec fn first_named(ps: Seq<ProfileDef>, name: Seq<char>) -> Option<ProfileDef>
    decreases ps.len(),
{
    if ps.len() == 0 {
        None
    } else if ps[0].name@ == name {
        Some(ps[0])
    } else {
        first_named(ps.drop_first(), name)
    }
}

/// Whether no theme is named twice.
fn section_theme_names_distinct(s: &Vec<(String, Vec<(String, Json)>)>) -> (r: bool)
    ensures
        r == names_distinct(themes_view(s@)),
{
    let ghost sv = themes_view(s@);
    let mut i: usize = 0;
    while i < s.len()
        invariant
            0 <= i <= s@.len(),
            sv == themes_view(s@),
            forall|a: int, b: int| 0 <= a < b < s@.len() && a < i ==> #[trigger] sv[a].0 != #[trigger] sv[b].0,
        decreases s@.len() - i,
    {
        let mut j: usize = i + 1;
        while j < s.len()
            invariant
                i < s@.len(),
                i + 1 <= j <= s@.len(),
                sv == themes_view(s@),
                forall|a: int, b: int| 0 <= a < b < s@.len() && a < i ==> #[trigger] sv[a].0 != #[trigger] sv[b].0,
                forall|b: int| i < b < j ==> sv[i as int].0 != #[trigger] sv[b].0,
            decreases s@.len() - j,
        {
            if str_eq(s[i].0.as_str(), s[j].0.as_str()) {
                assert(sv[i as int].0 == sv[j as int].0);
                return false;
            }
            j = j + 1;
        }
        i = i + 1;
    }
    true
}

// ---------------------------------------------------------------------------
// Reading and saving the config file's text
// ---------------------------------------------------------------------------

/// How reading the config file went.
pub enum ConfigRead {
    /// The file's text.
    Text(String),
    /// There was no file: the default document stands in, and was written
    /// out as the new file when `written`.
    FirstRun { default_text: String, written: bool },
    /// Reading failed for another reason (the file is left alone); the
    /// message to show.
    Failed(String),
}

pub open spec fn empty_object() -> JsonV {
    JsonV::Object(Seq::empty())
}

/// The user's document, the text it was read from, and the error to show:
/// text that does not parse reads as an empty document with the parser's
/// message; a first run reads the default document (its text is the
/// user's only when it was written); a failed read reads as an empty
/// document with its message.
pub open spec fn user_document_spec(read: ConfigRead) -> (JsonV, Option<Seq<char>>, Option<Seq<char>>) {
    match read {
        ConfigRead::Text(t) => match json_of_text(t@) {
            Ok(v) => (v, Some(t@), None),
            Err(e) => (empty_object(), Some(t@), Some(e)),
        },
        ConfigRead::FirstRun { default_text, written } => (
            match json_of_text(default_text@) {
                Ok(v) => v,
                Err(_) => empty_object(),
            },
            if written {
                Some(default_text@)
            } else {
                None
            },
            None,
        ),
        ConfigRead::Failed(m) => (empty_object(), None, Some(m@)),
    }
}

fn empty_document() -> (r: Json)
    ensures
        r@ == empty_object(),
{
    let r = Json::Object(Vec::new());
    proof {
        lemma_view_members(Seq::<(String, Json)>::empty());
        assert(view_members(Seq::<(String, Json)>::empty()) =~= Seq::<(Seq<char>, JsonV)>::empty());
    }
    r
}

/// The user's document, its text and the parse error, from how the read
/// went.
pub fn user_document_of(read: ConfigRead) -> (r: (Json, Option<String>, Option<String>))
    ensures
        (r.0@, opt_view(r.1), opt_view(r.2)) == user_document_spec(read),
{
    match read {
        ConfigRead::Text(t) => match parse_json(t.as_str()) {
            Ok(v) => (v, Some(t), None),
            Err(e) => (empty_document(), Some(t), Some(e)),
        },
        ConfigRead::FirstRun { default_text, written } => {
            let doc = match parse_json(default_text.as_str()) {
                Ok(v) => v,
                Err(_) => empty_document(),
            };
            (doc, if written {
                Some(default_text)
            } else {
                None
            }, None)
        },
        ConfigRead::Failed(m) => (empty_document(), None, Some(m)),
    }
}

/// `t` ending in a newline: as it is, or with one added.
pub open spec fn with_newline(t: Seq<char>) -> Seq<char> {
    if t.len() > 0 && t.last() == '\n' {
        t
    } else {
        t.push('\n')
    }
}

/// The bytes to write for config text: refused with the parser's message
/// when it is not JSON, and with [`root_error`]'s when its root is not an
/// object or its `config` not an object; otherwise the text itself in
/// UTF-8, ending in a newline.
pub fn save_bytes(text: &str) -> (r: Result<Vec<u8>, String>)
    ensures
        match json_of_text(text@) {
            Err(e) => r matches Err(m) && m@ == e,
            Ok(v) => match root_error(v) {
                Some(e) => r matches Err(m) && m@ == e,
                None => r matches Ok(b) && b@ == vstd::utf8::encode_utf8(with_newline(text@)),
            },
        },
{
    let parsed = match parse_json(text) {
        Ok(v) => v,
        Err(e) => {
            return Err(e);
        },
    };
    match validate_root(&parsed) {
        Ok(()) => {},
        Err(e) => {
            return Err(e);
        },
    }
    let mut cs = crate::text::chars_of(text);
    let n = cs.len();
    if !(n > 0 && cs[n - 1] == '\n') {
        cs.push('\n');
    }
    let full = crate::text::string_of(&cs);
    Ok(vstd::slice::slice_to_vec(full.as_str().as_bytes()))
}

/// The bytes to write for a document: refused with [`root_error`]'s
/// message, otherwise its pretty JSON and a newline, in UTF-8.
pub fn document_bytes(document: &Json) -> (r: Result<Vec<u8>, String>)
    ensures
        match root_error(document@) {
            Some(e) => r matches Err(m) && m@ == e,
            None => r matches Ok(b) && b@ == vstd::utf8::encode_utf8(json_pretty(document@).push('\n')),
        },
{
    match validate_root(document) {
        Ok(()) => {},
        Err(e) => {
            return Err(e);
        },
    }
    let text = format_json(document);
    Ok(vstd::slice::slice_to_vec(text.as_str().as_bytes()))
}

} // verus!
