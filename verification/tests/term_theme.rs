use hyper_revamp::grid::{cursor_style_from, CursorShape};
use hyper_revamp::config::ResolvedConfig;
use hyper_revamp::term_theme::{CellColor, TermTheme};
use hyper_revamp::theme::ColorMap;

const RED: usize = 1;
const BRIGHT_RED: usize = 9;
const FOREGROUND: usize = 256;

fn no_overrides() -> Vec<Option<[u8; 3]>> {
    vec![None; 269]
}

/// `printf '\e[1;31mERROR\e[0m'` must render in bright red.
#[test]
fn bold_basic_ansi_renders_bright() {
    let theme = TermTheme::from_resolved(&ResolvedConfig::default());
    let overrides = no_overrides();

    let plain = theme.resolve_fg(CellColor::Named(RED), &overrides, false);
    let bold = theme.resolve_fg(CellColor::Named(RED), &overrides, true);
    assert_eq!(plain, theme.palette[RED]);
    assert_eq!(bold, theme.palette[BRIGHT_RED]);
    assert_ne!(plain, bold);

    // The indexed spelling of the same color behaves identically.
    assert_eq!(theme.resolve_fg(CellColor::Indexed(1), &overrides, true), bold);
}

/// Only indices 0-7 brighten: 256-color, RGB, and the default foreground
/// are untouched.
#[test]
fn bold_leaves_other_colors_alone() {
    let theme = TermTheme::from_resolved(&ResolvedConfig::default());
    let overrides = no_overrides();
    for color in [
        CellColor::Named(FOREGROUND),
        CellColor::Named(BRIGHT_RED),
        CellColor::Indexed(9),
        CellColor::Indexed(200),
        CellColor::Spec(1, 2, 3),
    ] {
        assert_eq!(
            theme.resolve_fg(color, &overrides, true),
            theme.resolve_fg(color, &overrides, false),
            "{color:?} must not brighten when bold"
        );
    }
}

#[test]
fn palette_layout_matches_the_256_color_table() {
    let theme = TermTheme::from_resolved(&ResolvedConfig::default());
    assert_eq!(theme.palette.len(), 269);
    assert_eq!(theme.palette[1], [0xC5, 0x1E, 0x14, 255]);
    // Cube: 16 + 36*r + 6*g + b with levels 0, 95, 135, 175, 215, 255.
    assert_eq!(theme.palette[16], [0, 0, 0, 255]);
    assert_eq!(theme.palette[16 + 36 * 5 + 6 * 1 + 2], [255, 95, 135, 255]);
    assert_eq!(theme.palette[231], [255, 255, 255, 255]);
    // Grey ramp.
    assert_eq!(theme.palette[232], [8, 8, 8, 255]);
    assert_eq!(theme.palette[255], [238, 238, 238, 255]);
    // Named colours: foreground, background, cursor, dim, bright/dim foreground.
    assert_eq!(theme.palette[256], theme.foreground);
    assert_eq!(theme.palette[257], theme.background);
    assert_eq!(theme.palette[258], theme.cursor);
    assert_eq!(theme.palette[259 + 1], [(0xC5 * 66 / 100) as u8, (0x1E * 66 / 100) as u8, (0x14 * 66 / 100) as u8, 255]);
    assert_eq!(theme.palette[267], theme.foreground);
    assert_eq!(theme.foreground, [255, 255, 255, 255]);
    assert_eq!(theme.palette[268], [168, 168, 168, 255]);
}

#[test]
fn theme_colors_override_and_unparsable_ones_fall_back() {
    let mut colors = ColorMap::default();
    colors.red = Some("#010203".to_string());
    colors.green = Some("not a colour".to_string());
    let theme = TermTheme::from_theme(Some("#102030"), None, None, Some("bogus"), None, None, Some(&colors));
    assert_eq!(theme.background, [0x10, 0x20, 0x30, 255]);
    assert_eq!(theme.foreground, [255, 255, 255, 255]);
    // The cursor follows the foreground, its accent the background.
    assert_eq!(theme.cursor, theme.foreground);
    assert_eq!(theme.cursor_accent, theme.background);
    assert_eq!(theme.palette[1], [1, 2, 3, 255]);
    assert_eq!(theme.palette[2], [0x1D, 0xC1, 0x21, 255]);
    assert_eq!(theme.border, [51, 51, 51, 255]);
    // Translucent colours are stored premultiplied.
    let t = TermTheme::from_theme(None, None, None, None, Some("rgba(255, 0, 0, 0.5)"), None, None);
    assert_eq!(t.selection, [128, 0, 0, 128]);
}

#[test]
fn runtime_overrides_win_over_the_table() {
    let theme = TermTheme::from_resolved(&ResolvedConfig::default());
    let mut overrides = no_overrides();
    overrides[RED] = Some([9, 8, 7]);
    assert_eq!(theme.resolve(CellColor::Indexed(1), &overrides), [9, 8, 7, 255]);
    assert_eq!(theme.resolve(CellColor::Named(RED), &overrides), [9, 8, 7, 255]);
    // Bold red paints bright red, which has no override.
    assert_eq!(theme.resolve_fg(CellColor::Named(RED), &overrides, true), theme.palette[BRIGHT_RED]);
    assert_eq!(theme.resolve(CellColor::Spec(4, 5, 6), &overrides), [4, 5, 6, 255]);
}

#[test]
fn cursor_shape_option_is_read_without_regard_to_case() {
    let mut cfg = ResolvedConfig::default();
    assert_eq!(cursor_style_from(&cfg).shape, CursorShape::Block);
    assert!(!cursor_style_from(&cfg).blinking);
    cfg.cursor_shape = "beam".to_string();
    cfg.cursor_blink = true;
    let style = cursor_style_from(&cfg);
    assert_eq!(style.shape, CursorShape::Beam);
    assert!(style.blinking);
    cfg.cursor_shape = "Underline".to_string();
    assert_eq!(cursor_style_from(&cfg).shape, CursorShape::Underline);
    cfg.cursor_shape = "bar".to_string();
    assert_eq!(cursor_style_from(&cfg).shape, CursorShape::Block);
}

#[test]
fn programs_read_back_the_colors_they_set() {
    let theme = TermTheme::from_resolved(&ResolvedConfig::default());
    assert_eq!(theme.color_answer(RED, Some([1, 2, 3])), [1, 2, 3]);
    let e = theme.palette[RED];
    assert_eq!(theme.color_answer(RED, None), [e[0], e[1], e[2]]);
    let last = theme.palette[268];
    assert_eq!(theme.color_answer(5000, None), [last[0], last[1], last[2]]);
}
