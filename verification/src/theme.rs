//! Theme data: the 16-colour ANSI map in both of its config shapes, font
//! weights, CSS colour parsing, and the `--hyper-*` custom properties of a
//! CSS theme file.

use vstd::prelude::*;

use crate::json::{find_member, lemma_view_elems, lemma_view_members, lemma_view_members_push, member, view_members, Json, JsonV, Members};
use crate::text::string_from;
use crate::text::{
    chars_eq, chars_eq_ignore_ascii_case, chars_of, eq_ignore_ascii_case, lowercase, parse_usize,
    parse_usize_spec, str_lowercase, string_of, trim, trim_chars,
};

verus! {

broadcast use vstd::string::group_string_axioms;

/// The 16-colour ANSI map. All slots are optional so themes can be partial.
#[derive(Debug, Clone, PartialEq)]
pub struct ColorMap {
    pub black: Option<String>,
    pub red: Option<String>,
    pub green: Option<String>,
    pub yellow: Option<String>,
    pub blue: Option<String>,
    pub magenta: Option<String>,
    pub cyan: Option<String>,
    pub white: Option<String>,
    pub light_black: Option<String>,
    pub light_red: Option<String>,
    pub light_green: Option<String>,
    pub light_yellow: Option<String>,
    pub light_blue: Option<String>,
    pub light_magenta: Option<String>,
    pub light_cyan: Option<String>,
    pub light_white: Option<String>,
}

impl Default for ColorMap {
    /// Every slot unset.
    fn default() -> (r: ColorMap)
        ensures
            forall|i: int| 0 <= i < 16 ==> #[trigger] slots(r)[i] is None,
    {
        ColorMap {
            black: None,
            red: None,
            green: None,
            yellow: None,
            blue: None,
            magenta: None,
            cyan: None,
            white: None,
            light_black: None,
            light_red: None,
            light_green: None,
            light_yellow: None,
            light_blue: None,
            light_magenta: None,
            light_cyan: None,
            light_white: None,
        }
    }
}

/// The slot names in ANSI order 0-15, as the config file spells them; the
/// array form of `colors` lists the slots in this order.
pub open spec fn color_names() -> Seq<Seq<char>> {
    seq![
        "black"@,
        "red"@,
        "green"@,
        "yellow"@,
        "blue"@,
        "magenta"@,
        "cyan"@,
        "white"@,
        "lightBlack"@,
        "lightRed"@,
        "lightGreen"@,
        "lightYellow"@,
        "lightBlue"@,
        "lightMagenta"@,
        "lightCyan"@,
        "lightWhite"@,
    ]
}

pub open spec fn opt_chars(o: Option<String>) -> Option<Seq<char>> {
    match o {
        Some(s) => Some(s@),
        None => None,
    }
}

/// The slots in ANSI order.
pub open spec fn slots(c: ColorMap) -> Seq<Option<Seq<char>>> {
    seq![
        opt_chars(c.black),
        opt_chars(c.red),
        opt_chars(c.green),
        opt_chars(c.yellow),
        opt_chars(c.blue),
        opt_chars(c.magenta),
        opt_chars(c.cyan),
        opt_chars(c.white),
        opt_chars(c.light_black),
        opt_chars(c.light_red),
        opt_chars(c.light_green),
        opt_chars(c.light_yellow),
        opt_chars(c.light_blue),
        opt_chars(c.light_magenta),
        opt_chars(c.light_cyan),
        opt_chars(c.light_white),
    ]
}

/// The slot names, one executable string each.
pub(crate) fn color_name(i: usize) -> (r: &'static str)
    requires
        i < 16,
    ensures
        r@ == color_names()[i as int],
{
    let r = match i {
        0 => "black",
        1 => "red",
        2 => "green",
        3 => "yellow",
        4 => "blue",
        5 => "magenta",
        6 => "cyan",
        7 => "white",
        8 => "lightBlack",
        9 => "lightRed",
        10 => "lightGreen",
        11 => "lightYellow",
        12 => "lightBlue",
        13 => "lightMagenta",
        14 => "lightCyan",
        _ => "lightWhite",
    };
    proof {
        reveal_strlit("black");
        reveal_strlit("red");
        reveal_strlit("green");
        reveal_strlit("yellow");
        reveal_strlit("blue");
        reveal_strlit("magenta");
        reveal_strlit("cyan");
        reveal_strlit("white");
        reveal_strlit("lightBlack");
        reveal_strlit("lightRed");
        reveal_strlit("lightGreen");
        reveal_strlit("lightYellow");
        reveal_strlit("lightBlue");
        reveal_strlit("lightMagenta");
        reveal_strlit("lightCyan");
        reveal_strlit("lightWhite");
    }
    r
}

/// No two slots share a name.
pub proof fn lemma_color_names_distinct()
    ensures
        forall|a: int, b: int| 0 <= a < b < 16 ==> color_names()[a] != color_names()[b],
{
    let names = color_names();
    reveal_strlit("black");
    reveal_strlit("red");
    reveal_strlit("green");
    reveal_strlit("yellow");
    reveal_strlit("blue");
    reveal_strlit("magenta");
    reveal_strlit("cyan");
    reveal_strlit("white");
    reveal_strlit("lightBlack");
    reveal_strlit("lightRed");
    reveal_strlit("lightGreen");
    reveal_strlit("lightYellow");
    reveal_strlit("lightBlue");
    reveal_strlit("lightMagenta");
    reveal_strlit("lightCyan");
    reveal_strlit("lightWhite");
    assert forall|a: int, b: int| 0 <= a < b < 16 implies names[a] != names[b] by {
        if names[a] == names[b] {
            assert(names[a].len() == names[b].len());
            assert(names[a][0] == names[b][0]);
            if names[a].len() > 5 {
                assert(names[a][5] == names[b][5]);
            }
        }
    }
}

impl ColorMap {
    /// Set one ANSI slot by its name; an unknown name changes nothing.
    pub fn set(&mut self, key: &str, value: String)
        ensures
            forall|i: int|
                0 <= i < 16 ==> #[trigger] slots(*final(self))[i] == if color_names()[i] == key@ {
                    Some(value@)
                } else {
                    slots(*old(self))[i]
                },
    {
        let k = chars_of(key);
        let mut i: usize = 0;
        let ghost names = color_names();
        proof {
            lemma_color_names_distinct();
        }
        while i < 16
            invariant
                0 <= i <= 16,
                k@ == key@,
                names == color_names(),
                *self == *old(self),
                forall|a: int, b: int| 0 <= a < b < 16 ==> names[a] != names[b],
                forall|j: int| 0 <= j < i ==> names[j] != key@,
            decreases 16 - i,
        {
            let n = chars_of(color_name(i));
            if chars_eq(&n, &k) {
                let v = Some(value);
                match i {
                    0 => self.black = v,
                    1 => self.red = v,
                    2 => self.green = v,
                    3 => self.yellow = v,
                    4 => self.blue = v,
                    5 => self.magenta = v,
                    6 => self.cyan = v,
                    7 => self.white = v,
                    8 => self.light_black = v,
                    9 => self.light_red = v,
                    10 => self.light_green = v,
                    11 => self.light_yellow = v,
                    12 => self.light_blue = v,
                    13 => self.light_magenta = v,
                    14 => self.light_cyan = v,
                    _ => self.light_white = v,
                }
                return;
            }
            i = i + 1;
        }
    }

    /// The slots in ANSI order 0-15: black..white, then the bright variants.
    pub fn as_array(&self) -> (r: [Option<&String>; 16])
        ensures
            forall|i: int|
                0 <= i < 16 ==> #[trigger] slots(*self)[i] == match r@[i] {
                    Some(s) => Some(s@),
                    None => None,
                },
    {
        [
            self.black.as_ref(),
            self.red.as_ref(),
            self.green.as_ref(),
            self.yellow.as_ref(),
            self.blue.as_ref(),
            self.magenta.as_ref(),
            self.cyan.as_ref(),
            self.white.as_ref(),
            self.light_black.as_ref(),
            self.light_red.as_ref(),
            self.light_green.as_ref(),
            self.light_yellow.as_ref(),
            self.light_blue.as_ref(),
            self.light_magenta.as_ref(),
            self.light_cyan.as_ref(),
            self.light_white.as_ref(),
        ]
    }
}

pub open spec fn color_from_json(v: JsonV, i: int) -> Option<Seq<char>> {
    match v {
        JsonV::Array(a) => if i < a.len() {
            match a[i] {
                JsonV::Str(s) => Some(s),
                _ => None,
            }
        } else {
            None
        },
        JsonV::Object(m) => match member(m, color_names()[i]) {
            Some(JsonV::Str(s)) => Some(s),
            _ => None,
        },
        _ => None,
    }
}

impl ColorMap {
    /// Both shapes of `colors`: the named map, or the full array in ANSI
    /// order (entries past the sixteenth, such as `colorCubes` and
    /// `grayscale`, are ignored). Entries that are not strings are dropped
    /// one by one; any other shape gives an empty map.
    pub fn from_value(value: &Json) -> (r: ColorMap)
        ensures
            forall|i: int| 0 <= i < 16 ==> #[trigger] slots(r)[i] == color_from_json(value@, i),
    {
        let mut out = ColorMap::default();
        proof {
            lemma_color_names_distinct();
        }
        let mut i: usize = 0;
        while i < 16
            invariant
                0 <= i <= 16,
                forall|a: int, b: int| 0 <= a < b < 16 ==> color_names()[a] != color_names()[b],
                forall|j: int| 0 <= j < i ==> #[trigger] slots(out)[j] == color_from_json(value@, j),
                forall|j: int| i <= j < 16 ==> #[trigger] slots(out)[j] is None,
            decreases 16 - i,
        {
            let name = color_name(i);
            let found: Option<&String> = match value {
                Json::Array(items) => {
                    proof {
                        lemma_view_elems(items@);
                    }
                    if i < items.len() {
                        match &items[i] {
                            Json::Str(c) => Some(c),
                            _ => None,
                        }
                    } else {
                        None
                    }
                },
                Json::Object(m) => {
                    proof {
                        lemma_view_members(m@);
                    }
                    match find_member(m, name) {
                        Some(j) => match &m[j].1 {
                            Json::Str(c) => Some(c),
                            _ => None,
                        },
                        None => None,
                    }
                },
                _ => None,
            };
            match found {
                Some(c) => out.set(name, c.clone()),
                None => {},
            }
            i = i + 1;
        }
        out
    }
}

/// `fontWeight`: a CSS keyword or a number.
#[derive(Debug, Clone, PartialEq)]
pub enum FontWeight {
    Number(u16),
    Keyword(String),
}

impl FontWeight {
    /// 600 and up, whether written as a number or as a string of digits
    /// (`"600"` spells the weight 600 too), or the keyword `bold` in any
    /// letter case.
    pub fn is_bold(&self) -> (r: bool)
        ensures
            r == match self {
                FontWeight::Number(n) => *n >= 600,
                FontWeight::Keyword(k) => eq_ignore_ascii_case(k@, "bold"@) || (parse_usize_spec(k@) matches Some(
                    n,
                ) && 600 <= n <= 65535),
            },
    {
        match self {
            FontWeight::Number(n) => *n >= 600,
            FontWeight::Keyword(k) => {
                let kc = chars_of(k.as_str());
                let b = chars_of("bold");
                if chars_eq_ignore_ascii_case(&kc, &b) {
                    return true;
                }
                match parse_usize(&kc) {
                    Some(n) => 600 <= n && n <= 65535,
                    None => false,
                }
            },
        }
    }
}

/// The RGBA bytes csscolorparser reads from a CSS colour string, if it
/// reads one.
pub uninterp spec fn css_rgba8(s: Seq<char>) -> Option<Seq<u8>>;

/// Parse any CSS colour ("#000", "rgba(1,2,3,.5)", named) to RGBA bytes:
/// `csscolorparser::parse`, then `Color::to_rgba8`. The contract names the
/// result; it states no more of csscolorparser's grammar.
#[verifier::external_body]
pub fn parse_color(value: &str) -> (r: Option<[u8; 4]>)
    ensures
        match r {
            Some(a) => css_rgba8(value@) == Some(a@),
            None => css_rgba8(value@) is None,
        },
{
    csscolorparser::parse(value).ok().map(|c| c.to_rgba8())
}

/// What `regex` finds in `text` for `pattern`, match by match: the text of
/// the first two capture groups (empty where a group took no part), or
/// nothing when the pattern does not compile.
pub uninterp spec fn regex_capture_pairs(pattern: Seq<char>, text: Seq<char>) -> Option<
    Seq<(Seq<char>, Seq<char>)>,
>;

pub open spec fn pairs_view(v: Seq<(String, String)>) -> Seq<(Seq<char>, Seq<char>)> {
    v.map_values(|p: (String, String)| (p.0@, p.1@))
}

/// `Regex::new(pattern)` and `captures_iter(text)`, keeping groups 1 and 2
/// of every match in order. The contract names the result; it states
/// nothing of the regex engine.
#[verifier::external_body]
fn capture_pairs(pattern: &str, text: &str) -> (r: Option<Vec<(String, String)>>)
    ensures
        match r {
            Some(v) => regex_capture_pairs(pattern@, text@) == Some(pairs_view(v@)),
            None => regex_capture_pairs(pattern@, text@) is None,
        },
{
    match regex::Regex::new(pattern) {
        Ok(re) => Some(
            re.captures_iter(text).map(
                |c| (
                    c.get(1).map_or(String::new(), |m| m.as_str().to_string()),
                    c.get(2).map_or(String::new(), |m| m.as_str().to_string()),
                ),
            ).collect(),
        ),
        Err(_) => None,
    }
}

/// A `--hyper-<name>: <value>` declaration, the name in any letter case,
/// ended by `;`, a line break or the end of the text.
pub const HYPER_VAR_PATTERN: &'static str = "(?i)--hyper-([a-z-]+)\\s*:\\s*([^;}\\n]+?)\\s*(?:;|\\n|$)";

/// The value of custom property `k`: the last declaration of it wins
/// (names compared lower-cased), trimmed; an empty value counts as unset.
pub open spec fn css_var(pairs: Seq<(Seq<char>, Seq<char>)>, k: Seq<char>) -> Option<Seq<char>>
    decreases pairs.len(),
{
    if pairs.len() == 0 {
        None
    } else if str_lowercase(pairs.last().0) == k {
        let v = trim(trim(pairs.last().1));
        if v.len() > 0 {
            Some(v)
        } else {
            None
        }
    } else {
        css_var(pairs.drop_last(), k)
    }
}

/// The colours a CSS theme file sets.
#[derive(Debug, Clone, PartialEq)]
pub struct CssTheme {
    pub background_color: Option<String>,
    pub foreground_color: Option<String>,
    pub cursor_color: Option<String>,
    pub cursor_accent_color: Option<String>,
    pub border_color: Option<String>,
    pub selection_color: Option<String>,
    pub colors: Option<ColorMap>,
}

/// The custom-property names of the ANSI slots, in ANSI order.
pub open spec fn css_color_names() -> Seq<Seq<char>> {
    seq![
        "black"@,
        "red"@,
        "green"@,
        "yellow"@,
        "blue"@,
        "magenta"@,
        "cyan"@,
        "white"@,
        "light-black"@,
        "light-red"@,
        "light-green"@,
        "light-yellow"@,
        "light-blue"@,
        "light-magenta"@,
        "light-cyan"@,
        "light-white"@,
    ]
}

/// The theme a CSS file's declarations give.
pub open spec fn css_theme_spec(pairs: Seq<(Seq<char>, Seq<char>)>, t: CssTheme) -> bool {
    &&& opt_chars(t.background_color) == css_var(pairs, "background"@)
    &&& opt_chars(t.foreground_color) == css_var(pairs, "foreground"@)
    &&& opt_chars(t.cursor_color) == css_var(pairs, "cursor"@)
    &&& opt_chars(t.cursor_accent_color) == css_var(pairs, "cursor-accent"@)
    &&& opt_chars(t.border_color) == css_var(pairs, "border"@)
    &&& opt_chars(t.selection_color) == css_var(pairs, "selection"@)
    &&& match t.colors {
        Some(c) => (exists|i: int| 0 <= i < 16 && css_var(pairs, #[trigger] css_color_names()[i]) is Some)
            && forall|i: int| 0 <= i < 16 ==> #[trigger] slots(c)[i] == css_var(pairs, css_color_names()[i]),
        None => forall|i: int| 0 <= i < 16 ==> css_var(pairs, #[trigger] css_color_names()[i]) is None,
    }
}

fn css_color_name(i: usize) -> (r: &'static str)
    requires
        i < 16,
    ensures
        r@ == css_color_names()[i as int],
{
    let r = match i {
        0 => "black",
        1 => "red",
        2 => "green",
        3 => "yellow",
        4 => "blue",
        5 => "magenta",
        6 => "cyan",
        7 => "white",
        8 => "light-black",
        9 => "light-red",
        10 => "light-green",
        11 => "light-yellow",
        12 => "light-blue",
        13 => "light-magenta",
        14 => "light-cyan",
        _ => "light-white",
    };
    r
}

/// The last declaration of `k` among `pairs` (names already lower-cased in
/// `lowered`).
fn css_var_exec(pairs: &Vec<(String, String)>, lowered: &Vec<String>, k: &str) -> (r: Option<String>)
    requires
        lowered@.len() == pairs@.len(),
        forall|i: int| 0 <= i < pairs@.len() ==> #[trigger] lowered@[i]@ == str_lowercase(pairs@[i].0@),
    ensures
        opt_chars(r) == css_var(pairs_view(pairs@), k@),
{
    let ghost pv = pairs_view(pairs@);
    let mut i: usize = pairs.len();
    let kc = chars_of(k);
    assert(pv.subrange(0, pairs@.len() as int) =~= pv);
    while i > 0
        invariant
            0 <= i <= pairs@.len(),
            pv == pairs_view(pairs@),
            lowered@.len() == pairs@.len(),
            forall|j: int| 0 <= j < pairs@.len() ==> #[trigger] lowered@[j]@ == str_lowercase(pairs@[j].0@),
            kc@ == k@,
            css_var(pv, k@) == css_var(pv.subrange(0, i as int), k@),
        decreases i,
    {
        let ghost pre = pv.subrange(0, i as int);
        assert(pre.drop_last() =~= pv.subrange(0, i - 1));
        assert(pre.last() == (pairs@[i - 1].0@, pairs@[i - 1].1@));
        let lc = chars_of(lowered[i - 1].as_str());
        if chars_eq(&lc, &kc) {
            let v1 = trim_chars(&chars_of(pairs[i - 1].1.as_str()));
            let v = trim_chars(&v1);
            if v.len() > 0 {
                return Some(string_of(&v));
            } else {
                return None;
            }
        }
        i = i - 1;
    }
    None
}

/// The `--hyper-*` custom properties of a CSS theme file: `background`,
/// `foreground`, `cursor`, `cursor-accent`, `border`, `selection` and the
/// sixteen ANSI colours (`black` … `light-white`). The colour map is set
/// only when at least one colour is.
pub fn parse_css_theme(css: &str) -> (r: CssTheme)
    ensures
        match regex_capture_pairs(HYPER_VAR_PATTERN@, css@) {
            Some(pairs) => css_theme_spec(pairs, r),
            None => css_theme_spec(Seq::empty(), r),
        },
{
    let pairs = match capture_pairs(HYPER_VAR_PATTERN, css) {
        Some(p) => p,
        None => Vec::new(),
    };
    proof {
        if regex_capture_pairs(HYPER_VAR_PATTERN@, css@) is None {
            assert(pairs_view(pairs@) =~= Seq::empty());
        }
    }
    let mut lowered: Vec<String> = Vec::new();
    let mut i: usize = 0;
    while i < pairs.len()
        invariant
            0 <= i <= pairs@.len(),
            lowered@.len() == i,
            forall|j: int| 0 <= j < i ==> #[trigger] lowered@[j]@ == str_lowercase(pairs@[j].0@),
        decreases pairs@.len() - i,
    {
        lowered.push(lowercase(pairs[i].0.as_str()));
        i = i + 1;
    }
    let mut colors = ColorMap::default();
    let mut any = false;
    let mut c: usize = 0;
    proof {
        lemma_color_names_distinct();
    }
    while c < 16
        invariant
            0 <= c <= 16,
            lowered@.len() == pairs@.len(),
            forall|j: int| 0 <= j < pairs@.len() ==> #[trigger] lowered@[j]@ == str_lowercase(pairs@[j].0@),
            forall|a: int, b: int| 0 <= a < b < 16 ==> color_names()[a] != color_names()[b],
            forall|j: int|
                0 <= j < c ==> #[trigger] slots(colors)[j] == css_var(pairs_view(pairs@), css_color_names()[j]),
            forall|j: int| c <= j < 16 ==> #[trigger] slots(colors)[j] is None,
            any == exists|j: int| 0 <= j < c && css_var(pairs_view(pairs@), #[trigger] css_color_names()[j]) is Some,
        decreases 16 - c,
    {
        match css_var_exec(&pairs, &lowered, css_color_name(c)) {
            Some(v) => {
                colors.set(color_name(c), v);
                any = true;
            },
            None => {},
        }
        c = c + 1;
    }
    CssTheme {
        background_color: css_var_exec(&pairs, &lowered, "background"),
        foreground_color: css_var_exec(&pairs, &lowered, "foreground"),
        cursor_color: css_var_exec(&pairs, &lowered, "cursor"),
        cursor_accent_color: css_var_exec(&pairs, &lowered, "cursor-accent"),
        border_color: css_var_exec(&pairs, &lowered, "border"),
        selection_color: css_var_exec(&pairs, &lowered, "selection"),
        colors: if any {
            Some(colors)
        } else {
            None
        },
    }
}

/// A member `k` holding `v`, when `v` is set.
pub open spec fn opt_member(k: Seq<char>, v: Option<String>) -> Members {
    match v {
        Some(s) => seq![(k, JsonV::Str(s@))],
        None => seq![],
    }
}

/// The set slots among the first `n`, as members named like the config
/// file's slots.
pub open spec fn slot_members(c: ColorMap, n: int) -> Members
    decreases n,
{
    if n <= 0 {
        seq![]
    } else {
        slot_members(c, n - 1) + match slots(c)[n - 1] {
            Some(s) => seq![(color_names()[n - 1], JsonV::Str(s))],
            None => seq![],
        }
    }
}

/// A CSS theme as theme members: the colours it sets, and the object of
/// the ANSI slots it sets, if any.
pub open spec fn css_theme_members(t: CssTheme) -> Members {
    opt_member("backgroundColor"@, t.background_color) + opt_member("foregroundColor"@, t.foreground_color)
        + opt_member("cursorColor"@, t.cursor_color) + opt_member("cursorAccentColor"@, t.cursor_accent_color)
        + opt_member("borderColor"@, t.border_color) + opt_member("selectionColor"@, t.selection_color)
        + match t.colors {
        Some(c) => seq![("colors"@, JsonV::Object(slot_members(c, 16)))],
        None => seq![],
    }
}

fn push_opt(out: &mut Vec<(String, Json)>, k: &str, v: &Option<String>)
    ensures
        view_members(final(out)@) == view_members(old(out)@) + opt_member(k@, *v),
{
    match v {
        Some(s) => {
            let e = (string_from(k), Json::Str(s.clone()));
            let ghost prev = out@;
            out.push(e);
            proof {
                lemma_view_members_push(prev, e);
            }
        },
        None => {
            assert(view_members(out@) =~= view_members(out@) + Seq::<(Seq<char>, JsonV)>::empty());
        },
    }
}

impl ColorMap {
    /// The set slots as members, in ANSI order.
    pub fn to_members(&self) -> (r: Vec<(String, Json)>)
        ensures
            view_members(r@) == slot_members(*self, 16),
    {
        let arr = self.as_array();
        let mut out: Vec<(String, Json)> = Vec::new();
        let mut i: usize = 0;
        while i < 16
            invariant
                0 <= i <= 16,
                forall|j: int| 0 <= j < 16 ==> #[trigger] slots(*self)[j] == match arr@[j] {
                    Some(s) => Some(s@),
                    None => None,
                },
                view_members(out@) == slot_members(*self, i as int),
            decreases 16 - i,
        {
            let ghost before = view_members(out@);
            assert(slots(*self)[i as int] == match arr@[i as int] {
                Some(s) => Some(s@),
                None => None,
            });
            match arr[i] {
                Some(s) => {
                    let e = (string_from(color_name(i)), Json::Str(s.clone()));
                    let ghost prev = out@;
                    out.push(e);
                    proof {
                        lemma_view_members_push(prev, e);
                    }
                },
                None => {},
            }
            assert(view_members(out@) =~= slot_members(*self, i + 1));
            i = i + 1;
        }
        out
    }
}

impl CssTheme {
    /// The theme as members for the theme registry.
    pub fn to_members(&self) -> (r: Vec<(String, Json)>)
        ensures
            view_members(r@) == css_theme_members(*self),
    {
        let mut out: Vec<(String, Json)> = Vec::new();
        assert(view_members(out@) =~= Seq::<(Seq<char>, JsonV)>::empty());
        push_opt(&mut out, "backgroundColor", &self.background_color);
        push_opt(&mut out, "foregroundColor", &self.foreground_color);
        push_opt(&mut out, "cursorColor", &self.cursor_color);
        push_opt(&mut out, "cursorAccentColor", &self.cursor_accent_color);
        push_opt(&mut out, "borderColor", &self.border_color);
        push_opt(&mut out, "selectionColor", &self.selection_color);
        match &self.colors {
            Some(c) => {
                let e = (string_from("colors"), Json::Object(c.to_members()));
                let ghost prev = out@;
                out.push(e);
                proof {
                    lemma_view_members_push(prev, e);
                }
            },
            None => {},
        }
        assert(view_members(out@) =~= css_theme_members(*self));
        out
    }
}

} // verus!
