//! The terminal's colour table: the 16 ANSI colours of the theme, the
//! 6x6x6 cube and grey ramp of the 256-colour palette, and the named
//! colours after them (foreground, background, cursor, dim variants), with
//! the lookup a cell's colour goes through when it is painted.

use vstd::prelude::*;

use crate::config::ResolvedConfig;
use crate::theme::{css_rgba8, parse_color, slots, ColorMap};

verus! {

// ---------------------------------------------------------------------------
// Colours
// ---------------------------------------------------------------------------

/// `egui`'s rounding multiply of a channel by an alpha.
pub open spec fn mul_frac_round(v: u8, a: u8) -> u8 {
    let p = v * a + 128;
    ((p + p / 256) / 256) as u8
}

/// The premultiplied bytes of an RGBA colour with separate alpha, as
/// `egui::Color32::from_rgba_unmultiplied` stores it.
pub open spec fn premultiplied(c: Seq<u8>) -> Seq<u8> {
    if c[3] == 0 {
        seq![0u8, 0u8, 0u8, 0u8]
    } else if c[3] == 255 {
        seq![c[0], c[1], c[2], 255u8]
    } else {
        seq![mul_frac_round(c[0], c[3]), mul_frac_round(c[1], c[3]), mul_frac_round(c[2], c[3]), c[3]]
    }
}

/// `egui::Color32::from_rgba_unmultiplied`, as bytes: transparent when the
/// alpha is 0, the colour itself when it is 255, else each channel
/// multiplied by the alpha with rounding (its source shows exactly this).
#[verifier::external_body]
fn from_rgba_unmultiplied(c: [u8; 4]) -> (r: [u8; 4])
    requires
        c@.len() == 4,
    ensures
        r@ == premultiplied(c@),
{
    egui::Color32::from_rgba_unmultiplied(c[0], c[1], c[2], c[3]).to_array()
}

/// An opaque colour.
pub open spec fn rgb(r: u8, g: u8, b: u8) -> Seq<u8> {
    seq![r, g, b, 255u8]
}

fn opaque(r: u8, g: u8, b: u8) -> (c: [u8; 4])
    ensures
        c@ == rgb(r, g, b),
{
    let c = [r, g, b, 255];
    assert(c@ =~= rgb(r, g, b));
    c
}

/// A CSS colour string, or `fallback` when it does not parse.
pub open spec fn css_or(v: Seq<char>, fallback: Seq<u8>) -> Seq<u8> {
    match css_rgba8(v) {
        Some(b) => premultiplied(b),
        None => fallback,
    }
}

/// An optional CSS colour, or `fallback`.
pub open spec fn opt_css_or(v: Option<Seq<char>>, fallback: Seq<u8>) -> Seq<u8> {
    match v {
        Some(s) => css_or(s, fallback),
        None => fallback,
    }
}

fn color_or(v: Option<&str>, fallback: [u8; 4]) -> (r: [u8; 4])
    ensures
        r@ == opt_css_or(crate::text::opt_str_view(v), fallback@),
{
    match v {
        Some(s) => match parse_color(s) {
            Some(b) => from_rgba_unmultiplied(b),
            None => fallback,
        },
        None => fallback,
    }
}

/// A colour at 66 per cent, rounded down, made opaque: the dim variants.
pub open spec fn dim_spec(c: Seq<u8>) -> Seq<u8> {
    seq![(c[0] * 66 / 100) as u8, (c[1] * 66 / 100) as u8, (c[2] * 66 / 100) as u8, 255u8]
}

fn dim(c: [u8; 4]) -> (r: [u8; 4])
    ensures
        r@ == dim_spec(c@),
{
    let r = [
        ((c[0] as u32) * 66 / 100) as u8,
        ((c[1] as u32) * 66 / 100) as u8,
        ((c[2] as u32) * 66 / 100) as u8,
        255,
    ];
    assert(r@ =~= dim_spec(c@));
    r
}

// ---------------------------------------------------------------------------
// The palette
// ---------------------------------------------------------------------------

/// The default 16 ANSI colours (those of Hyper's default theme).
pub open spec fn default_ansi(i: int) -> Seq<u8> {
    if i == 0 {
        rgb(0x00, 0x00, 0x00)
    } else if i == 1 {
        rgb(0xC5, 0x1E, 0x14)
    } else if i == 2 {
        rgb(0x1D, 0xC1, 0x21)
    } else if i == 3 {
        rgb(0xC7, 0xC3, 0x29)
    } else if i == 4 {
        rgb(0x0A, 0x2F, 0xC4)
    } else if i == 5 {
        rgb(0xC8, 0x39, 0xC5)
    } else if i == 6 {
        rgb(0x20, 0xC5, 0xC6)
    } else if i == 7 {
        rgb(0xC7, 0xC7, 0xC7)
    } else if i == 8 {
        rgb(0x68, 0x68, 0x68)
    } else if i == 9 {
        rgb(0xFD, 0x6F, 0x6B)
    } else if i == 10 {
        rgb(0x67, 0xF8, 0x6F)
    } else if i == 11 {
        rgb(0xFF, 0xFA, 0x72)
    } else if i == 12 {
        rgb(0x6A, 0x76, 0xFB)
    } else if i == 13 {
        rgb(0xFD, 0x7C, 0xFC)
    } else if i == 14 {
        rgb(0x68, 0xFD, 0xFE)
    } else {
        rgb(0xFF, 0xFF, 0xFF)
    }
}

fn default_ansi_at(i: usize) -> (c: [u8; 4])
    requires
        i < 16,
    ensures
        c@ == default_ansi(i as int),
{
    match i {
        0 => opaque(0x00, 0x00, 0x00),
        1 => opaque(0xC5, 0x1E, 0x14),
        2 => opaque(0x1D, 0xC1, 0x21),
        3 => opaque(0xC7, 0xC3, 0x29),
        4 => opaque(0x0A, 0x2F, 0xC4),
        5 => opaque(0xC8, 0x39, 0xC5),
        6 => opaque(0x20, 0xC5, 0xC6),
        7 => opaque(0xC7, 0xC7, 0xC7),
        8 => opaque(0x68, 0x68, 0x68),
        9 => opaque(0xFD, 0x6F, 0x6B),
        10 => opaque(0x67, 0xF8, 0x6F),
        11 => opaque(0xFF, 0xFA, 0x72),
        12 => opaque(0x6A, 0x76, 0xFB),
        13 => opaque(0xFD, 0x7C, 0xFC),
        14 => opaque(0x68, 0xFD, 0xFE),
        _ => opaque(0xFF, 0xFF, 0xFF),
    }
}

/// ANSI colour `i`: the theme's, where it sets one that parses, else the
/// default.
pub open spec fn ansi_spec(colors: Option<ColorMap>, i: int) -> Seq<u8> {
    match colors {
        Some(m) => match slots(m)[i] {
            Some(s) => css_or(s, default_ansi(i)),
            None => default_ansi(i),
        },
        None => default_ansi(i),
    }
}

/// One level of the 6x6x6 cube.
pub open spec fn cube_level(c: int) -> u8 {
    if c == 0 {
        0
    } else {
        (c * 40 + 55) as u8
    }
}

/// Colour `j` of the table: the 16 ANSI colours, the cube (16-231), the
/// grey ramp (232-255), then foreground, background, cursor, the 8 dim ANSI
/// colours, the bright foreground and the dim foreground (256-268).
pub open spec fn palette_entry(ansi: spec_fn(int) -> Seq<u8>, fg: Seq<u8>, bg: Seq<u8>, cursor: Seq<u8>, j: int) -> Seq<u8> {
    if j < 16 {
        ansi(j)
    } else if j < 232 {
        rgb(cube_level((j - 16) / 36), cube_level(((j - 16) / 6) % 6), cube_level((j - 16) % 6))
    } else if j < 256 {
        rgb((8 + (j - 232) * 10) as u8, (8 + (j - 232) * 10) as u8, (8 + (j - 232) * 10) as u8)
    } else if j == 256 {
        fg
    } else if j == 257 {
        bg
    } else if j == 258 {
        cursor
    } else if j < 267 {
        dim_spec(ansi(j - 259))
    } else if j == 267 {
        fg
    } else {
        dim_spec(fg)
    }
}

/// The resolved colour table and chrome colours, as RGBA bytes.
#[derive(Debug, Clone, PartialEq)]
pub struct TermTheme {
    /// 269 entries, indexed like the terminal's named colours.
    pub palette: Vec<[u8; 4]>,
    pub background: [u8; 4],
    pub foreground: [u8; 4],
    pub cursor: [u8; 4],
    pub cursor_accent: [u8; 4],
    pub selection: [u8; 4],
    pub border: [u8; 4],
}

/// `t` is the theme made of the given colours: black and white by
/// default, the cursor defaulting to the foreground and its accent to the
/// background, a translucent magenta selection and a dark grey border.
pub open spec fn theme_from(
    t: TermTheme,
    background: Option<Seq<char>>,
    foreground: Option<Seq<char>>,
    cursor: Option<Seq<char>>,
    cursor_accent: Option<Seq<char>>,
    selection: Option<Seq<char>>,
    border: Option<Seq<char>>,
    colors: Option<ColorMap>,
) -> bool {
    let bg = opt_css_or(background, rgb(0, 0, 0));
    let fg = opt_css_or(foreground, rgb(255, 255, 255));
    let cur = opt_css_or(cursor, fg);
    &&& t.background@ == bg
    &&& t.foreground@ == fg
    &&& t.cursor@ == cur
    &&& t.cursor_accent@ == opt_css_or(cursor_accent, bg)
    &&& t.selection@ == opt_css_or(selection, premultiplied(seq![248u8, 28u8, 229u8, 77u8]))
    &&& t.border@ == opt_css_or(border, rgb(51, 51, 51))
    &&& t.palette@.len() == 269
    &&& forall|j: int| 0 <= j < 269 ==> (#[trigger] t.palette@[j])@ == palette_entry(|i: int| ansi_spec(colors, i), fg, bg, cur, j)
}

pub open spec fn opt_str(o: Option<&str>) -> Option<Seq<char>> {
    crate::text::opt_str_view(o)
}

impl TermTheme {
    /// Build the table from a theme's colours (any of them may be unset).
    pub fn from_theme(
        background: Option<&str>,
        foreground: Option<&str>,
        cursor: Option<&str>,
        cursor_accent: Option<&str>,
        selection: Option<&str>,
        border: Option<&str>,
        colors: Option<&ColorMap>,
    ) -> (r: TermTheme)
        ensures
            theme_from(
                r,
                opt_str(background),
                opt_str(foreground),
                opt_str(cursor),
                opt_str(cursor_accent),
                opt_str(selection),
                opt_str(border),
                match colors {
                    Some(c) => Some(*c),
                    None => None,
                },
            ),
    {
        let bg = color_or(background, opaque(0, 0, 0));
        let fg = color_or(foreground, opaque(255, 255, 255));
        let cur = color_or(cursor, fg);
        let accent = color_or(cursor_accent, bg);
        let sel = color_or(selection, from_rgba_unmultiplied([248, 28, 229, 77]));
        proof {
            assert([248u8, 28u8, 229u8, 77u8]@ =~= seq![248u8, 28u8, 229u8, 77u8]);
        }
        let border_c = color_or(border, opaque(51, 51, 51));
        let ghost cm = match colors {
            Some(c) => Some(*c),
            None => None,
        };
        let ghost ansi = |i: int| ansi_spec(cm, i);
        let mut ansi_v: Vec<[u8; 4]> = Vec::new();
        let slots_arr = match colors {
            Some(c) => Some(c.as_array()),
            None => None,
        };
        let mut i: usize = 0;
        while i < 16
            invariant
                0 <= i <= 16,
                ansi_v@.len() == i,
                forall|j: int| 0 <= j < i ==> (#[trigger] ansi_v@[j])@ == ansi_spec(cm, j),
                match slots_arr {
                    Some(a) => cm matches Some(c) && forall|j: int| 0 <= j < 16 ==> #[trigger] slots(c)[j] == match a@[j] {
                        Some(s) => Some(s@),
                        None => None,
                    },
                    None => cm is None,
                },
            decreases 16 - i,
        {
            let d = default_ansi_at(i);
            let c = match &slots_arr {
                Some(a) => match a[i] {
                    Some(s) => color_or(Some(s.as_str()), d),
                    None => d,
                },
                None => d,
            };
            ansi_v.push(c);
            i = i + 1;
        }
        let mut palette: Vec<[u8; 4]> = Vec::new();
        let mut j: usize = 0;
        while j < 269
            invariant
                0 <= j <= 269,
                palette@.len() == j,
                ansi_v@.len() == 16,
                forall|k: int| 0 <= k < 16 ==> (#[trigger] ansi_v@[k])@ == ansi_spec(cm, k),
                forall|k: int| 0 <= k < j ==> (#[trigger] palette@[k])@ == palette_entry(|x: int| ansi_spec(cm, x), fg@, bg@, cur@, k),
            decreases 269 - j,
        {
            let e: [u8; 4] = if j < 16 {
                ansi_v[j]
            } else if j < 232 {
                let i = j - 16;
                let level = |c: usize| -> (l: u8)
                    requires
                        c < 6,
                    ensures
                        l == cube_level(c as int),
                    {
                        if c == 0 {
                            0
                        } else {
                            (c * 40 + 55) as u8
                        }
                    };
                opaque(level(i / 36), level((i / 6) % 6), level(i % 6))
            } else if j < 256 {
                let v = (8 + (j - 232) * 10) as u8;
                opaque(v, v, v)
            } else if j == 256 {
                fg
            } else if j == 257 {
                bg
            } else if j == 258 {
                cur
            } else if j < 267 {
                dim(ansi_v[j - 259])
            } else if j == 267 {
                fg
            } else {
                dim(fg)
            };
            palette.push(e);
            j = j + 1;
        }
        TermTheme {
            palette,
            background: bg,
            foreground: fg,
            cursor: cur,
            cursor_accent: accent,
            selection: sel,
            border: border_c,
        }
    }

    /// The table for a profile's resolved options.
    pub fn from_resolved(cfg: &ResolvedConfig) -> (r: TermTheme)
        ensures
            theme_from(
                r,
                Some(cfg.background_color@),
                Some(cfg.foreground_color@),
                Some(cfg.cursor_color@),
                Some(cfg.cursor_accent_color@),
                Some(cfg.selection_color@),
                Some(cfg.border_color@),
                Some(cfg.colors),
            ),
    {
        TermTheme::from_theme(
            Some(cfg.background_color.as_str()),
            Some(cfg.foreground_color.as_str()),
            Some(cfg.cursor_color.as_str()),
            Some(cfg.cursor_accent_color.as_str()),
            Some(cfg.selection_color.as_str()),
            Some(cfg.border_color.as_str()),
            Some(&cfg.colors),
        )
    }
}

// ---------------------------------------------------------------------------
// Cell colours
// ---------------------------------------------------------------------------

/// A cell's colour as the terminal reports it.
#[derive(Debug, Clone, Copy, PartialEq, Eq)]
pub enum CellColor {
    /// A direct RGB colour.
    Spec(u8, u8, u8),
    /// One of the named colours, by its index in the table (0-268).
    Named(usize),
    /// A 256-colour palette index.
    Indexed(u8),
}

/// What a cell colour paints as: an RGB colour as itself; a named or
/// indexed colour as the program's runtime override of that entry (OSC 4 /
/// 10 / 11 …), else the table's entry.
pub open spec fn resolve_spec(t: TermTheme, overrides: Seq<Option<[u8; 3]>>, c: CellColor) -> Seq<u8> {
    match c {
        CellColor::Spec(r, g, b) => rgb(r, g, b),
        CellColor::Named(i) => match overrides[i as int] {
            Some(o) => rgb(o[0], o[1], o[2]),
            None => t.palette@[if i <= 268 { i as int } else { 268 }]@,
        },
        CellColor::Indexed(i) => match overrides[i as int] {
            Some(o) => rgb(o[0], o[1], o[2]),
            None => t.palette@[i as int]@,
        },
    }
}

/// The basic ANSI colour (0-7) a cell colour refers to, named or indexed.
pub open spec fn basic_ansi(c: CellColor) -> Option<usize> {
    match c {
        CellColor::Named(i) => if i < 8 {
            Some(i)
        } else {
            None
        },
        CellColor::Indexed(i) => if i < 8 {
            Some(i as usize)
        } else {
            None
        },
        _ => None,
    }
}

pub open spec fn valid_color(c: CellColor) -> bool {
    match c {
        CellColor::Named(i) => i < 269,
        _ => true,
    }
}

impl TermTheme {
    /// The colour a program asking for palette entry `index` is told: the
    /// one it set itself (`overridden`), so that what it saves and restores
    /// is its own; else this theme's, indices past the table reading its
    /// last entry.
    pub fn color_answer(&self, index: usize, overridden: Option<[u8; 3]>) -> (r: [u8; 3])
        requires
            self.palette@.len() == 269,
        ensures
            match overridden {
                Some(c) => r == c,
                None => {
                    let e = self.palette@[if index <= 268 { index as int } else { 268 }];
                    r@ == seq![e[0], e[1], e[2]]
                },
            },
    {
        match overridden {
            Some(c) => c,
            None => {
                let i = if index <= 268 {
                    index
                } else {
                    268
                };
                let e = self.palette[i];
                let r = [e[0], e[1], e[2]];
                assert(r@ =~= seq![e[0], e[1], e[2]]);
                r
            },
        }
    }

    /// Resolve a cell colour against the runtime overrides, then this table.
    pub fn resolve(&self, color: CellColor, overrides: &Vec<Option<[u8; 3]>>) -> (r: [u8; 4])
        requires
            self.palette@.len() == 269,
            overrides@.len() == 269,
            valid_color(color),
        ensures
            r@ == resolve_spec(*self, overrides@, color),
    {
        match color {
            CellColor::Spec(r, g, b) => opaque(r, g, b),
            CellColor::Named(i) => match overrides[i] {
                Some(o) => opaque(o[0], o[1], o[2]),
                None => self.palette[if i <= 268 {
                    i
                } else {
                    268
                }],
            },
            CellColor::Indexed(i) => match overrides[i as usize] {
                Some(o) => opaque(o[0], o[1], o[2]),
                None => self.palette[i as usize],
            },
        }
    }

    /// The foreground of a cell: bold text in one of the 8 basic ANSI
    /// colours (named or indexed) takes that colour's bright variant; every
    /// other colour, the default foreground included, is left as it is.
    pub fn resolve_fg(&self, color: CellColor, overrides: &Vec<Option<[u8; 3]>>, bold: bool) -> (r: [u8; 4])
        requires
            self.palette@.len() == 269,
            overrides@.len() == 269,
            valid_color(color),
        ensures
            r@ == if bold && basic_ansi(color) is Some {
                resolve_spec(*self, overrides@, CellColor::Named((basic_ansi(color)->0 + 8) as usize))
            } else {
                resolve_spec(*self, overrides@, color)
            },
    {
        if bold {
            let basic: Option<usize> = match color {
                CellColor::Named(i) => if i < 8 {
                    Some(i)
                } else {
                    None
                },
                CellColor::Indexed(i) => if i < 8 {
                    Some(i as usize)
                } else {
                    None
                },
                _ => None,
            };
            if let Some(n) = basic {
                return self.resolve(CellColor::Named(n + 8), overrides);
            }
        }
        self.resolve(color, overrides)
    }
}

} // verus!
