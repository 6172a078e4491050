//! The typed options of a profile, read leniently from its merged config
//! object: every key is read on its own, and a key that is absent, `null`
//! or of the wrong shape falls back to its default without disturbing the
//! others.
//!
//! Numbers the terminal takes as floating point (font size, line height,
//! letter spacing, opacity, window size) are kept as their JSON text.

use vstd::prelude::*;

use crate::json::{
    find_member, lemma_member_remove, lemma_member_remove_other, lemma_view_elems, lemma_view_members, member,
    remove_member, view_members, Json, JsonV, Members,
};
use crate::model::{Bell, ModifierKeys};
use crate::text::{copy_string, parse_usize, parse_usize_spec, string_from};
use crate::theme::{color_from_json, slots, ColorMap, FontWeight};

verus! {

broadcast use vstd::string::group_string_axioms;

// ---------------------------------------------------------------------------
// What a field reads as
// ---------------------------------------------------------------------------

pub open spec fn opt_json(v: Option<&Json>) -> Option<JsonV> {
    match v {
        Some(j) => Some(j@),
        None => None,
    }
}

/// A string field.
pub open spec fn string_value(v: Option<JsonV>) -> Option<Seq<char>> {
    match v {
        Some(JsonV::Str(s)) => Some(s),
        _ => None,
    }
}

/// A boolean field.
pub open spec fn bool_value(v: Option<JsonV>) -> Option<bool> {
    match v {
        Some(JsonV::Bool(b)) => Some(b),
        _ => None,
    }
}

/// A floating-point field: any JSON number, as its text.
pub open spec fn number_text(v: Option<JsonV>) -> Option<Seq<char>> {
    match v {
        Some(JsonV::Number(t)) => Some(t),
        _ => None,
    }
}

/// An unsigned integer field: a JSON number written as plain digits whose
/// value fits.
pub open spec fn usize_value(v: Option<JsonV>) -> Option<usize> {
    match v {
        Some(JsonV::Number(t)) => parse_usize_spec(t),
        _ => None,
    }
}

pub open spec fn u16_of_text(t: Seq<char>) -> Option<u16> {
    match parse_usize_spec(t) {
        Some(n) => if n <= 65535 {
            Some(n as u16)
        } else {
            None
        },
        None => None,
    }
}

pub open spec fn str_of(j: JsonV) -> Seq<char> {
    match j {
        JsonV::Str(s) => s,
        _ => seq![],
    }
}

/// A list of strings: an array whose every element is a string.
pub open spec fn string_list(v: Option<JsonV>) -> Option<Seq<Seq<char>>> {
    match v {
        Some(JsonV::Array(items)) => if forall|i: int| 0 <= i < items.len() ==> #[trigger] items[i] is Str {
            Some(items.map_values(|j: JsonV| str_of(j)))
        } else {
            None
        },
        _ => None,
    }
}

/// A string map: an object whose every value is a string.
pub open spec fn string_map(v: Option<JsonV>) -> Option<Seq<(Seq<char>, Seq<char>)>> {
    match v {
        Some(JsonV::Object(m)) => if forall|i: int| 0 <= i < m.len() ==> #[trigger] m[i].1 is Str {
            Some(m.map_values(|p: (Seq<char>, JsonV)| (p.0, str_of(p.1))))
        } else {
            None
        },
        _ => None,
    }
}

/// One flag of `modifierKeys`: absent is `false`; present, it must be a
/// boolean.
pub open spec fn flag_value(v: Option<JsonV>) -> Option<bool> {
    match v {
        None => Some(false),
        Some(JsonV::Bool(b)) => Some(b),
        _ => None,
    }
}

/// `modifierKeys`: an object with the flags `altIsMeta` and `cmdIsMeta`,
/// or the flags in that order as an array of at most two booleans.
pub open spec fn modifier_keys_value(v: Option<JsonV>) -> Option<(bool, bool)> {
    match v {
        Some(JsonV::Object(m)) => match (flag_value(member(m, "altIsMeta"@)), flag_value(member(m, "cmdIsMeta"@))) {
            (Some(a), Some(c)) => Some((a, c)),
            _ => None,
        },
        Some(JsonV::Array(items)) => if items.len() <= 2 && (items.len() < 1 || items[0] is Bool) && (
        items.len() < 2 || items[1] is Bool) {
            Some(
                (
                    items.len() >= 1 && items[0] == JsonV::Bool(true),
                    items.len() >= 2 && items[1] == JsonV::Bool(true),
                ),
            )
        } else {
            None
        },
        _ => None,
    }
}

/// One side of a focus/blur opacity: absent or `null` is unset; present, it
/// must be a number.
pub open spec fn opt_number(v: Option<JsonV>) -> Option<Option<Seq<char>>> {
    match v {
        None => Some(None),
        Some(JsonV::Null) => Some(None),
        Some(JsonV::Number(t)) => Some(Some(t)),
        _ => None,
    }
}

/// `windowSize`: an array of exactly two numbers.
pub open spec fn size_value(v: Option<JsonV>) -> Option<(Seq<char>, Seq<char>)> {
    match v {
        Some(JsonV::Array(items)) => if items.len() == 2 && items[0] is Number && items[1] is Number {
            Some((number_text(Some(items[0]))->0, number_text(Some(items[1]))->0))
        } else {
            None
        },
        _ => None,
    }
}

/// `opacity`: one value for both focus states, or separate ones.
#[derive(Debug, Clone, PartialEq)]
pub enum Opacity {
    /// The JSON text of the number.
    Single(String),
    FocusBlur { focus: Option<String>, blur: Option<String> },
}

impl Opacity {
    /// The number text that applies while the window has focus; `None`
    /// means fully opaque.
    pub fn focused_text(&self) -> (r: Option<String>)
        ensures
            opt_text(r) == match self {
                Opacity::Single(t) => Some(t@),
                Opacity::FocusBlur { focus, .. } => opt_text(*focus),
            },
    {
        match self {
            Opacity::Single(t) => Some(copy_string(t)),
            Opacity::FocusBlur { focus, .. } => match focus {
                Some(f) => Some(copy_string(f)),
                None => None,
            },
        }
    }

    /// The number text that applies while the window is in the background:
    /// the blur value, else the focus value; `None` means fully opaque.
    pub fn blurred_text(&self) -> (r: Option<String>)
        ensures
            opt_text(r) == match self {
                Opacity::Single(t) => Some(t@),
                Opacity::FocusBlur { focus, blur } => if blur is Some {
                    opt_text(*blur)
                } else {
                    opt_text(*focus)
                },
            },
    {
        match self {
            Opacity::Single(t) => Some(copy_string(t)),
            Opacity::FocusBlur { focus, blur } => match blur {
                Some(b) => Some(copy_string(b)),
                None => match focus {
                    Some(f) => Some(copy_string(f)),
                    None => None,
                },
            },
        }
    }
}

pub open spec fn opt_text(o: Option<String>) -> Option<Seq<char>> {
    match o {
        Some(s) => Some(s@),
        None => None,
    }
}

/// `opacity` read from `v`: a number, an object with optional numeric
/// `focus` and `blur`, or those two in that order as an array of exactly
/// two; anything else is the default of `0.95`.
pub open spec fn opacity_matches(o: Opacity, v: Option<JsonV>) -> bool {
    match v {
        Some(JsonV::Number(t)) => o matches Opacity::Single(s) && s@ == t,
        Some(JsonV::Object(m)) if opt_number(member(m, "focus"@)) is Some && opt_number(member(m, "blur"@)) is Some => o matches Opacity::FocusBlur { focus, blur } && opt_text(focus) == opt_number(member(m, "focus"@))->0 && opt_text(blur) == opt_number(member(m, "blur"@))->0,
        Some(JsonV::Array(items)) if items.len() == 2 && opt_number(Some(items[0])) is Some && opt_number(Some(items[1])) is Some => o matches Opacity::FocusBlur { focus, blur } && opt_text(focus) == opt_number(Some(items[0]))->0 && opt_text(blur) == opt_number(Some(items[1]))->0,
        _ => o matches Opacity::Single(s) && s@ == "0.95"@,
    }
}

/// `fontWeight` read from `v`: a number that fits in 16 bits, or a
/// keyword; anything else is `default`.
pub open spec fn weight_matches(w: FontWeight, v: Option<JsonV>, default: Seq<char>) -> bool {
    match v {
        Some(JsonV::Number(t)) if u16_of_text(t) is Some => w == FontWeight::Number(u16_of_text(t)->0),
        Some(JsonV::Str(s)) => w matches FontWeight::Keyword(k) && k@ == s,
        _ => w matches FontWeight::Keyword(k) && k@ == default,
    }
}

/// `bell` read from `v`: a mode string or `false`; anything else is
/// `"SOUND"`.
pub open spec fn bell_matches(b: Bell, v: Option<JsonV>) -> bool {
    match v {
        Some(JsonV::Str(s)) => b matches Bell::Mode(m) && m@ == s,
        Some(JsonV::Bool(x)) => b == Bell::Off(x),
        _ => b matches Bell::Mode(m) && m@ == "SOUND"@,
    }
}

// ---------------------------------------------------------------------------
// Reading fields
// ---------------------------------------------------------------------------

/// The value of member `k`, if there is one.
pub fn field<'a>(m: &'a Vec<(String, Json)>, k: &str) -> (r: Option<&'a Json>)
    ensures
        opt_json(r) == member(view_members(m@), k@),
{
    proof {
        lemma_view_members(m@);
    }
    match find_member(m, k) {
        Some(j) => Some(&m[j].1),
        None => None,
    }
}

fn string_or(v: Option<&Json>, d: &str) -> (r: String)
    ensures
        r@ == match string_value(opt_json(v)) {
            Some(s) => s,
            None => d@,
        },
{
    match v {
        Some(Json::Str(s)) => copy_string(s),
        _ => string_from(d),
    }
}

fn opt_string_or(v: Option<&Json>, d: Option<&str>) -> (r: Option<String>)
    ensures
        opt_text(r) == match string_value(opt_json(v)) {
            Some(s) => Some(s),
            None => crate::text::opt_str_view(d),
        },
{
    match v {
        Some(Json::Str(s)) => Some(copy_string(s)),
        _ => match d {
            Some(x) => Some(string_from(x)),
            None => None,
        },
    }
}

fn bool_or(v: Option<&Json>, d: bool) -> (r: bool)
    ensures
        r == match bool_value(opt_json(v)) {
            Some(b) => b,
            None => d,
        },
{
    match v {
        Some(Json::Bool(b)) => *b,
        _ => d,
    }
}

fn number_or(v: Option<&Json>, d: &str) -> (r: String)
    ensures
        r@ == match number_text(opt_json(v)) {
            Some(t) => t,
            None => d@,
        },
{
    match v {
        Some(Json::Number(t)) => copy_string(t),
        _ => string_from(d),
    }
}

fn usize_or(v: Option<&Json>, d: usize) -> (r: usize)
    ensures
        r == match usize_value(opt_json(v)) {
            Some(n) => n,
            None => d,
        },
{
    match v {
        Some(Json::Number(t)) => {
            let cs = crate::text::chars_of(t.as_str());
            match parse_usize(&cs) {
                Some(n) => n,
                None => d,
            }
        },
        _ => d,
    }
}

fn weight_or(v: Option<&Json>, d: &str) -> (r: FontWeight)
    ensures
        weight_matches(r, opt_json(v), d@),
{
    match v {
        Some(Json::Number(t)) => {
            let cs = crate::text::chars_of(t.as_str());
            match parse_usize(&cs) {
                Some(n) => if n <= 65535 {
                    FontWeight::Number(n as u16)
                } else {
                    FontWeight::Keyword(string_from(d))
                },
                None => FontWeight::Keyword(string_from(d)),
            }
        },
        Some(Json::Str(s)) => FontWeight::Keyword(copy_string(s)),
        _ => FontWeight::Keyword(string_from(d)),
    }
}

fn bell_of(v: Option<&Json>) -> (r: Bell)
    ensures
        bell_matches(r, opt_json(v)),
{
    match v {
        Some(Json::Str(s)) => Bell::Mode(copy_string(s)),
        Some(Json::Bool(b)) => Bell::Off(*b),
        _ => Bell::Mode(string_from("SOUND")),
    }
}

pub open spec fn strs_view(v: Seq<String>) -> Seq<Seq<char>> {
    v.map_values(|s: String| s@)
}

pub open spec fn string_pairs_view(v: Seq<(String, String)>) -> Seq<(Seq<char>, Seq<char>)> {
    v.map_values(|p: (String, String)| (p.0@, p.1@))
}

/// The strings of an all-string array, or `None`.
fn string_list_of(v: Option<&Json>) -> (r: Option<Vec<String>>)
    ensures
        match r {
            Some(l) => string_list(opt_json(v)) == Some(strs_view(l@)),
            None => string_list(opt_json(v)) is None,
        },
{
    match v {
        Some(Json::Array(items)) => {
            let ghost iv = crate::json::view_elems(items@);
            proof {
                lemma_view_elems(items@);
            }
            let mut out: Vec<String> = Vec::new();
            let mut i: usize = 0;
            while i < items.len()
                invariant
                    0 <= i <= items@.len(),
                    iv == crate::json::view_elems(items@),
                    opt_json(v) == Some(JsonV::Array(iv)),
                    iv.len() == items@.len(),
                    forall|j: int| 0 <= j < items@.len() ==> #[trigger] iv[j] == items@[j]@,
                    out@.len() == i,
                    forall|j: int| 0 <= j < i ==> #[trigger] iv[j] is Str && (out@[j])@ == str_of(iv[j]),
                decreases items@.len() - i,
            {
                match &items[i] {
                    Json::Str(s) => out.push(copy_string(s)),
                    _ => {
                        assert(opt_json(v) == Some(JsonV::Array(iv)));
                        assert(!(iv[i as int] is Str));
                        assert(!(forall|j: int| 0 <= j < iv.len() ==> #[trigger] iv[j] is Str));
                        return None;
                    },
                }
                i = i + 1;
            }
            assert(strs_view(out@) =~= iv.map_values(|j: JsonV| str_of(j)));
            Some(out)
        },
        _ => None,
    }
}

/// The members of an object whose every value is a string, or `None`.
fn string_map_of(v: Option<&Json>) -> (r: Option<Vec<(String, String)>>)
    ensures
        match r {
            Some(l) => string_map(opt_json(v)) == Some(string_pairs_view(l@)),
            None => string_map(opt_json(v)) is None,
        },
{
    match v {
        Some(Json::Object(m)) => {
            let ghost mv = view_members(m@);
            proof {
                lemma_view_members(m@);
            }
            let mut out: Vec<(String, String)> = Vec::new();
            let mut i: usize = 0;
            while i < m.len()
                invariant
                    0 <= i <= m@.len(),
                    mv == view_members(m@),
                    opt_json(v) == Some(JsonV::Object(mv)),
                    mv.len() == m@.len(),
                    forall|j: int| 0 <= j < m@.len() ==> #[trigger] mv[j] == (m@[j].0@, m@[j].1@),
                    out@.len() == i,
                    forall|j: int| 0 <= j < i ==> #[trigger] mv[j].1 is Str && (out@[j].0)@ == mv[j].0 && (out@[j].1)@ == str_of(mv[j].1),
                decreases m@.len() - i,
            {
                match &m[i].1 {
                    Json::Str(s) => out.push((copy_string(&m[i].0), copy_string(s))),
                    _ => {
                        assert(opt_json(v) == Some(JsonV::Object(mv)));
                        assert(!(mv[i as int].1 is Str));
                        assert(!(forall|j: int| 0 <= j < mv.len() ==> #[trigger] mv[j].1 is Str));
                        return None;
                    },
                }
                i = i + 1;
            }
            assert(string_pairs_view(out@) =~= mv.map_values(|p: (Seq<char>, JsonV)| (p.0, str_of(p.1))));
            Some(out)
        },
        _ => None,
    }
}

fn flag_of(v: Option<&Json>) -> (r: Option<bool>)
    ensures
        r == flag_value(opt_json(v)),
{
    match v {
        None => Some(false),
        Some(Json::Bool(b)) => Some(*b),
        _ => None,
    }
}

fn modifier_keys_of(v: Option<&Json>) -> (r: ModifierKeys)
    ensures
        (r.alt_is_meta, r.cmd_is_meta) == match modifier_keys_value(opt_json(v)) {
            Some(p) => p,
            None => (false, false),
        },
{
    let none = ModifierKeys { alt_is_meta: false, cmd_is_meta: false };
    match v {
        Some(Json::Object(m)) => {
            let a = flag_of(field(m, "altIsMeta"));
            let c = flag_of(field(m, "cmdIsMeta"));
            match (a, c) {
                (Some(a), Some(c)) => ModifierKeys { alt_is_meta: a, cmd_is_meta: c },
                _ => none,
            }
        },
        Some(Json::Array(items)) => {
            proof {
                lemma_view_elems(items@);
            }
            if items.len() > 2 {
                return none;
            }
            let mut flags = [false, false];
            let mut i: usize = 0;
            while i < items.len()
                invariant
                    0 <= i <= items@.len() <= 2,
                    opt_json(v) == Some(JsonV::Array(crate::json::view_elems(items@))),
                    crate::json::view_elems(items@).len() == items@.len(),
                    forall|j: int| 0 <= j < items@.len() ==> #[trigger] crate::json::view_elems(items@)[j] == items@[j]@,
                    forall|j: int| 0 <= j < i ==> #[trigger] items@[j]@ is Bool && flags@[j] == (items@[j]@ == JsonV::Bool(true)),
                    forall|j: int| i <= j < 2 ==> !#[trigger] flags@[j],
                decreases items@.len() - i,
            {
                match &items[i] {
                    Json::Bool(b) => {
                        flags.set(i, *b);
                    },
                    _ => {
                        let ghost ev = crate::json::view_elems(items@);
                        assert(ev[i as int] == items@[i as int]@);
                        assert(!(ev[i as int] is Bool));
                        if i == 0 {
                            assert(!(ev.len() < 1 || ev[0] is Bool));
                        } else {
                            assert(!(ev.len() < 2 || ev[1] is Bool));
                        }
                        assert(modifier_keys_value(opt_json(v)) is None);
                        return ModifierKeys { alt_is_meta: false, cmd_is_meta: false };
                    },
                }
                i = i + 1;
            }
            ModifierKeys { alt_is_meta: flags[0], cmd_is_meta: flags[1] }
        },
        _ => none,
    }
}

fn opt_number_of(v: Option<&Json>) -> (r: Option<Option<String>>)
    ensures
        match r {
            Some(o) => opt_number(opt_json(v)) == Some(opt_text(o)),
            None => opt_number(opt_json(v)) is None,
        },
{
    match v {
        None => Some(None),
        Some(Json::Null) => Some(None),
        Some(Json::Number(t)) => Some(Some(copy_string(t))),
        _ => None,
    }
}

fn opacity_of(v: Option<&Json>) -> (r: Opacity)
    ensures
        opacity_matches(r, opt_json(v)),
{
    let fallback = Opacity::Single(string_from("0.95"));
    match v {
        Some(Json::Number(t)) => Opacity::Single(copy_string(t)),
        Some(Json::Object(m)) => {
            let f = opt_number_of(field(m, "focus"));
            let b = opt_number_of(field(m, "blur"));
            match (f, b) {
                (Some(focus), Some(blur)) => Opacity::FocusBlur { focus, blur },
                _ => fallback,
            }
        },
        Some(Json::Array(items)) => {
            proof {
                lemma_view_elems(items@);
            }
            if items.len() != 2 {
                return fallback;
            }
            let f = opt_number_of(Some(&items[0]));
            let b = opt_number_of(Some(&items[1]));
            match (f, b) {
                (Some(focus), Some(blur)) => Opacity::FocusBlur { focus, blur },
                _ => fallback,
            }
        },
        _ => fallback,
    }
}

fn size_of(v: Option<&Json>) -> (r: Option<(String, String)>)
    ensures
        match r {
            Some(p) => size_value(opt_json(v)) == Some((p.0@, p.1@)),
            None => size_value(opt_json(v)) is None,
        },
{
    match v {
        Some(Json::Array(items)) => {
            proof {
                lemma_view_elems(items@);
            }
            if items.len() != 2 {
                return None;
            }
            match (&items[0], &items[1]) {
                (Json::Number(w), Json::Number(h)) => Some((copy_string(w), copy_string(h))),
                _ => None,
            }
        },
        _ => None,
    }
}

// ---------------------------------------------------------------------------
// The resolved options
// ---------------------------------------------------------------------------

/// The default terminal font stack.
pub const DEFAULT_FONT_FAMILY: &'static str = "\"Cascadia Code\", Menlo, \"DejaVu Sans Mono\", \"Lucida Console\", monospace";

/// The default interface font stack.
pub const DEFAULT_UI_FONT_FAMILY: &'static str = "-apple-system, BlinkMacSystemFont, \"Segoe UI\", \"Roboto\", \"Oxygen\", \"Ubuntu\", \"Cantarell\", \"Fira Sans\", \"Droid Sans\", \"Helvetica Neue\", sans-serif";

/// Fully resolved per-profile options: what the terminal and its views
/// consume.
#[derive(Debug, Clone, PartialEq)]
pub struct ResolvedConfig {
    pub background_color: String,
    pub foreground_color: String,
    pub cursor_color: String,
    pub cursor_accent_color: String,
    pub border_color: String,
    pub selection_color: String,
    pub colors: ColorMap,
    pub font_family: String,
    pub ui_font_family: Option<String>,
    /// JSON text of the font size in points.
    pub font_size: String,
    pub font_weight: FontWeight,
    pub font_weight_bold: FontWeight,
    /// JSON text of the line-height factor.
    pub line_height: String,
    /// JSON text of the letter spacing.
    pub letter_spacing: String,
    pub disable_ligatures: bool,
    pub cursor_shape: String,
    pub cursor_blink: bool,
    pub padding: String,
    pub bell: Bell,
    pub bell_sound_url: Option<String>,
    pub copy_on_select: bool,
    pub quick_edit: bool,
    pub scrollback: usize,
    pub shell: String,
    pub shell_args: Vec<String>,
    pub env: Vec<(String, String)>,
    pub working_directory: String,
    pub preserve_cwd: bool,
    pub mac_option_selection_mode: String,
    pub modifier_keys: ModifierKeys,
    pub opacity: Opacity,
    pub web_links_activation_key: String,
    pub image_support: bool,
    pub screen_reader_mode: bool,
    /// JSON texts of the window width and height.
    pub window_size: Option<(String, String)>,
}

pub open spec fn str_or(v: Option<JsonV>, d: Seq<char>) -> Seq<char> {
    match string_value(v) {
        Some(s) => s,
        None => d,
    }
}

pub open spec fn bool_or_spec(v: Option<JsonV>, d: bool) -> bool {
    match bool_value(v) {
        Some(b) => b,
        None => d,
    }
}

pub open spec fn num_or(v: Option<JsonV>, d: Seq<char>) -> Seq<char> {
    match number_text(v) {
        Some(t) => t,
        None => d,
    }
}

/// `r` holds the options read from the members `m`, each key on its own
/// (the config file's own spelling, `preserveCWD` and `bellSoundURL`
/// included), with the default wherever a key is unusable.
pub open spec fn resolved_from(r: ResolvedConfig, m: Members) -> bool {
    &&& r.background_color@ == str_or(member(m, "backgroundColor"@), "#000"@)
    &&& r.foreground_color@ == str_or(member(m, "foregroundColor"@), "#fff"@)
    &&& r.cursor_color@ == str_or(member(m, "cursorColor"@), "rgba(248,28,229,0.8)"@)
    &&& r.cursor_accent_color@ == str_or(member(m, "cursorAccentColor"@), "#000"@)
    &&& r.border_color@ == str_or(member(m, "borderColor"@), "#333"@)
    &&& r.selection_color@ == str_or(member(m, "selectionColor"@), "rgba(248,28,229,0.3)"@)
    &&& forall|i: int| 0 <= i < 16 ==> #[trigger] slots(r.colors)[i] == match member(m, "colors"@) {
        Some(v) => color_from_json(v, i),
        None => None,
    }
    &&& r.font_family@ == str_or(member(m, "fontFamily"@), DEFAULT_FONT_FAMILY@)
    &&& opt_text(r.ui_font_family) == Some(str_or(member(m, "uiFontFamily"@), DEFAULT_UI_FONT_FAMILY@))
    &&& r.font_size@ == num_or(member(m, "fontSize"@), "14"@)
    &&& weight_matches(r.font_weight, member(m, "fontWeight"@), "normal"@)
    &&& weight_matches(r.font_weight_bold, member(m, "fontWeightBold"@), "bold"@)
    &&& r.line_height@ == num_or(member(m, "lineHeight"@), "1"@)
    &&& r.letter_spacing@ == num_or(member(m, "letterSpacing"@), "0"@)
    &&& r.disable_ligatures == bool_or_spec(member(m, "disableLigatures"@), false)
    &&& r.cursor_shape@ == str_or(member(m, "cursorShape"@), "BLOCK"@)
    &&& r.cursor_blink == bool_or_spec(member(m, "cursorBlink"@), false)
    &&& r.padding@ == str_or(member(m, "padding"@), "12px 14px"@)
    &&& bell_matches(r.bell, member(m, "bell"@))
    &&& opt_text(r.bell_sound_url) == string_value(member(m, "bellSoundURL"@))
    &&& r.copy_on_select == bool_or_spec(member(m, "copyOnSelect"@), false)
    &&& r.quick_edit == bool_or_spec(member(m, "quickEdit"@), false)
    &&& r.scrollback == match usize_value(member(m, "scrollback"@)) {
        Some(n) => n,
        None => 1000,
    }
    &&& r.shell@ == str_or(member(m, "shell"@), ""@)
    &&& strs_view(r.shell_args@) == match string_list(member(m, "shellArgs"@)) {
        Some(l) => l,
        None => seq!["--login"@],
    }
    &&& string_pairs_view(r.env@) == match string_map(member(m, "env"@)) {
        Some(p) => p,
        None => seq![],
    }
    &&& r.working_directory@ == str_or(member(m, "workingDirectory"@), ""@)
    &&& r.preserve_cwd == bool_or_spec(member(m, "preserveCWD"@), true)
    &&& r.mac_option_selection_mode@ == str_or(member(m, "macOptionSelectionMode"@), "vertical"@)
    &&& (r.modifier_keys.alt_is_meta, r.modifier_keys.cmd_is_meta) == match modifier_keys_value(member(m, "modifierKeys"@)) {
        Some(p) => p,
        None => (false, false),
    }
    &&& opacity_matches(r.opacity, member(m, "opacity"@))
    &&& r.web_links_activation_key@ == str_or(member(m, "webLinksActivationKey"@), ""@)
    &&& r.image_support == bool_or_spec(member(m, "imageSupport"@), true)
    &&& r.screen_reader_mode == bool_or_spec(member(m, "screenReaderMode"@), false)
    &&& match r.window_size {
        Some(p) => size_value(member(m, "windowSize"@)) == Some((p.0@, p.1@)),
        None => size_value(member(m, "windowSize"@)) is None,
    }
}

impl ResolvedConfig {
    /// Read the options from the members of a merged config object.
    pub fn from_members(m: &Vec<(String, Json)>) -> (r: ResolvedConfig)
        ensures
            resolved_from(r, view_members(m@)),
    {
        let colors = match field(m, "colors") {
            Some(v) => ColorMap::from_value(v),
            None => ColorMap::default(),
        };
        let shell_args = match string_list_of(field(m, "shellArgs")) {
            Some(l) => l,
            None => {
                let mut d: Vec<String> = Vec::new();
                d.push(string_from("--login"));
                assert(strs_view(d@) =~= seq!["--login"@]);
                d
            },
        };
        let env = match string_map_of(field(m, "env")) {
            Some(p) => p,
            None => {
                let d: Vec<(String, String)> = Vec::new();
                assert(string_pairs_view(d@) =~= Seq::<(Seq<char>, Seq<char>)>::empty());
                d
            },
        };
        ResolvedConfig {
            background_color: string_or(field(m, "backgroundColor"), "#000"),
            foreground_color: string_or(field(m, "foregroundColor"), "#fff"),
            cursor_color: string_or(field(m, "cursorColor"), "rgba(248,28,229,0.8)"),
            cursor_accent_color: string_or(field(m, "cursorAccentColor"), "#000"),
            border_color: string_or(field(m, "borderColor"), "#333"),
            selection_color: string_or(field(m, "selectionColor"), "rgba(248,28,229,0.3)"),
            colors,
            font_family: string_or(field(m, "fontFamily"), DEFAULT_FONT_FAMILY),
            ui_font_family: opt_string_or(field(m, "uiFontFamily"), Some(DEFAULT_UI_FONT_FAMILY)),
            font_size: number_or(field(m, "fontSize"), "14"),
            font_weight: weight_or(field(m, "fontWeight"), "normal"),
            font_weight_bold: weight_or(field(m, "fontWeightBold"), "bold"),
            line_height: number_or(field(m, "lineHeight"), "1"),
            letter_spacing: number_or(field(m, "letterSpacing"), "0"),
            disable_ligatures: bool_or(field(m, "disableLigatures"), false),
            cursor_shape: string_or(field(m, "cursorShape"), "BLOCK"),
            cursor_blink: bool_or(field(m, "cursorBlink"), false),
            padding: string_or(field(m, "padding"), "12px 14px"),
            bell: bell_of(field(m, "bell")),
            bell_sound_url: opt_string_or(field(m, "bellSoundURL"), None),
            copy_on_select: bool_or(field(m, "copyOnSelect"), false),
            quick_edit: bool_or(field(m, "quickEdit"), false),
            scrollback: usize_or(field(m, "scrollback"), 1000),
            shell: string_or(field(m, "shell"), ""),
            shell_args,
            env,
            working_directory: string_or(field(m, "workingDirectory"), ""),
            preserve_cwd: bool_or(field(m, "preserveCWD"), true),
            mac_option_selection_mode: string_or(field(m, "macOptionSelectionMode"), "vertical"),
            modifier_keys: modifier_keys_of(field(m, "modifierKeys")),
            opacity: opacity_of(field(m, "opacity")),
            web_links_activation_key: string_or(field(m, "webLinksActivationKey"), ""),
            image_support: bool_or(field(m, "imageSupport"), true),
            screen_reader_mode: bool_or(field(m, "screenReaderMode"), false),
            window_size: size_of(field(m, "windowSize")),
        }
    }
}

impl Default for ResolvedConfig {
    /// Every option at its default: what an empty config object reads as.
    fn default() -> (r: ResolvedConfig)
        ensures
            resolved_from(r, Seq::empty()),
    {
        let empty: Vec<(String, Json)> = Vec::new();
        assert(view_members(empty@) =~= Seq::<(Seq<char>, JsonV)>::empty());
        ResolvedConfig::from_members(&empty)
    }
}

/// A `null` option reads exactly as if its key were absent (it takes its
/// default), and every other option reads as before.
#[verifier::rlimit(60)]
pub proof fn law_null_reads_as_absent(r: ResolvedConfig, m: Members, x: Seq<char>)
    requires
        resolved_from(r, m),
        member(m, x) == Some(JsonV::Null),
    ensures
        resolved_from(r, remove_member(m, x)),
{
    lemma_member_remove(m, x);
    let m2 = remove_member(m, x);
    assert forall|k: Seq<char>| #[trigger] member(m2, k) == if k == x {
        None
    } else {
        member(m, k)
    } by {
        if k != x {
            lemma_member_remove_other(m, k, x);
        }
    }
    assert forall|k: Seq<char>| same_reading(#[trigger] member(m, k), member(m2, k)) by {}
    lemma_same_readings(r, m, m2);
}

/// Two member values every option reads alike: equal, or each absent or
/// `null`.
pub open spec fn same_reading(a: Option<JsonV>, b: Option<JsonV>) -> bool {
    a == b || ((a is None || a == Some(JsonV::Null)) && (b is None || b == Some(JsonV::Null)))
}

#[verifier::rlimit(100)]
#[verifier::spinoff_prover]
proof fn lemma_same_readings(r: ResolvedConfig, m: Members, m2: Members)
    requires
        resolved_from(r, m),
        forall|k: Seq<char>| same_reading(#[trigger] member(m, k), member(m2, k)),
    ensures
        resolved_from(r, m2),
{
    assert(same_reading(member(m, "colors"@), member(m2, "colors"@)));
    assert forall|i: int| 0 <= i < 16 implies #[trigger] slots(r.colors)[i] == match member(m2, "colors"@) {
        Some(v) => color_from_json(v, i),
        None => None,
    } by {}
    assert(same_reading(member(m, "opacity"@), member(m2, "opacity"@)));
    assert(same_reading(member(m, "modifierKeys"@), member(m2, "modifierKeys"@)));
    assert(same_reading(member(m, "shellArgs"@), member(m2, "shellArgs"@)));
    assert(same_reading(member(m, "env"@), member(m2, "env"@)));
    assert(same_reading(member(m, "windowSize"@), member(m2, "windowSize"@)));
}

} // verus!
