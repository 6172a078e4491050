use hyper_revamp::json::{get_path, Json};
use hyper_revamp::model::{
    default_profile_name, normalize_profiles, padding_sides, Bell, ProfileDef, SshProfileDef,
};
use hyper_revamp::config::{Opacity, ResolvedConfig};
use hyper_revamp::model::ModifierKeys;
use hyper_revamp::resolve::{resolve_profile_config, resolve_profile_document, theme_name_for};
use hyper_revamp::theme::{parse_color, parse_css_theme, ColorMap, FontWeight};

fn s(t: &str) -> Json {
    Json::Str(t.to_string())
}

fn n(t: &str) -> Json {
    Json::Number(t.to_string())
}

fn members(list: Vec<(&str, Json)>) -> Vec<(String, Json)> {
    list.into_iter().map(|(k, v)| (k.to_string(), v)).collect()
}

fn obj(list: Vec<(&str, Json)>) -> Json {
    Json::Object(members(list))
}

fn profile(name: &str, config: Vec<(String, Json)>) -> ProfileDef {
    let mut p = ProfileDef::named(name);
    p.config = config;
    p
}

#[test]
fn bell_variants_deserialize() {
    let sound = Bell::Mode("SOUND".to_string());
    assert!(sound.is_sound());
    let off = Bell::Off(false);
    assert!(!off.is_sound());
    assert!(Bell::Mode("sound".to_string()).is_sound());
    assert!(!Bell::Mode("visual".to_string()).is_sound());
    assert_eq!(Bell::default(), Bell::Mode("SOUND".to_string()));
}

#[test]
fn password_auth_follows_auth_type_or_a_stored_password() {
    let mut ssh = SshProfileDef::default();
    assert!(!ssh.uses_password_auth());
    ssh.auth_type = Some("password".to_string());
    assert!(ssh.uses_password_auth());
    ssh.auth_type = Some("publickey".to_string());
    assert!(!ssh.uses_password_auth());
    ssh.password = Some(String::new());
    assert!(!ssh.uses_password_auth());
    ssh.password = Some("hunter2".to_string());
    assert!(ssh.uses_password_auth());
}

#[test]
fn ssh_profiles_are_recognised_by_type() {
    let mut p = ProfileDef::named("x");
    assert!(!p.is_ssh());
    p.profile_type = Some("ssh".to_string());
    assert!(p.is_ssh());
}

#[test]
fn profiles_are_never_empty_and_always_named() {
    let mut none: Vec<ProfileDef> = Vec::new();
    normalize_profiles(&mut none);
    assert_eq!(none.len(), 1);
    assert_eq!(none[0].name, "default");

    let mut some = vec![ProfileDef::named("work"), ProfileDef::named("  "), ProfileDef::named("")];
    normalize_profiles(&mut some);
    let names: Vec<&str> = some.iter().map(|p| p.name.as_str()).collect();
    assert_eq!(names, vec!["work", "profile-2", "profile-3"]);
}

#[test]
fn default_profile_falls_back_to_the_first() {
    let profiles = vec![ProfileDef::named("a"), ProfileDef::named("b")];
    assert_eq!(default_profile_name(Some("b"), &profiles), "b");
    assert_eq!(default_profile_name(Some("zzz"), &profiles), "a");
    assert_eq!(default_profile_name(None, &profiles), "a");
    let with_default = vec![ProfileDef::named("x"), ProfileDef::named("default")];
    assert_eq!(default_profile_name(None, &with_default), "default");
    assert_eq!(default_profile_name(Some("q"), &[]), "default");
}

#[test]
fn merge_order_root_theme_profile() {
    let root = members(vec![
        ("fontSize", n("14")),
        ("backgroundColor", s("#000")),
        ("colors", obj(vec![("red", s("#f00")), ("green", s("#0f0"))])),
    ]);
    let theme = members(vec![("backgroundColor", s("#111")), ("colors", obj(vec![("red", s("#e00"))]))]);
    let mut p = profile(
        "p",
        members(vec![("colors", obj(vec![("green", s("#1f1"))])), ("fontSize", n("16"))]),
    );
    p.theme = None;
    assert_eq!(theme_name_for(Some(&p), Some("night")), Some("night".to_string()));
    let resolved = Json::Object(resolve_profile_document(&root, Some(&p), Some(&theme)));

    // profile beats theme beats root; objects shallow-merge.
    assert_eq!(get_path(&resolved, &["fontSize"]), Some(&n("16")));
    assert_eq!(get_path(&resolved, &["backgroundColor"]), Some(&s("#111")));
    assert_eq!(get_path(&resolved, &["colors", "red"]), Some(&s("#e00")));
    assert_eq!(get_path(&resolved, &["colors", "green"]), Some(&s("#1f1")));

    let themes = vec![("night".to_string(), theme)];
    let options = resolve_profile_config(&root, Some(&p), &themes, Some("night"));
    assert_eq!(options.font_size.parse::<f32>().unwrap(), 16.0);
    assert_eq!(options.background_color, "#111");
    assert_eq!(options.colors.red.as_deref(), Some("#e00")); // theme kept
    assert_eq!(options.colors.green.as_deref(), Some("#1f1")); // profile override
}

#[test]
fn arrays_replace_not_merge() {
    let root = members(vec![("shellArgs", Json::Array(vec![s("--login")]))]);
    let p = profile("p", members(vec![("shellArgs", Json::Array(vec![s("-i")]))]));
    let resolved = Json::Object(resolve_profile_document(&root, Some(&p), None));
    assert_eq!(get_path(&resolved, &["shellArgs"]), Some(&Json::Array(vec![s("-i")])));
    let options = resolve_profile_config(&root, Some(&p), &Vec::new(), None);
    assert_eq!(options.shell_args, vec!["-i".to_string()]);
}

#[test]
fn theme_extra_keys_merge() {
    let theme = members(vec![
        ("backgroundColor", s("#111")),
        ("padding", s("0px")),
        ("cursorShape", s("BEAM")),
    ]);
    let resolved = Json::Object(resolve_profile_document(&Vec::new(), None, Some(&theme)));
    assert_eq!(get_path(&resolved, &["backgroundColor"]), Some(&s("#111")));
    assert_eq!(get_path(&resolved, &["padding"]), Some(&s("0px")));
    assert_eq!(get_path(&resolved, &["cursorShape"]), Some(&s("BEAM")));
}

#[test]
fn meta_keys_do_not_reach_the_options() {
    let root = members(vec![
        ("profiles", Json::Array(vec![])),
        ("themes", obj(vec![])),
        ("defaultProfile", s("a")),
        ("defaultTheme", s("b")),
        ("shell", s("/bin/fish")),
    ]);
    let resolved = resolve_profile_document(&root, None, None);
    assert_eq!(resolved, members(vec![("shell", s("/bin/fish"))]));
}

#[test]
fn profile_theme_wins_over_the_default_theme() {
    let mut p = ProfileDef::named("p");
    p.theme = Some("mine".to_string());
    assert_eq!(theme_name_for(Some(&p), Some("default")), Some("mine".to_string()));
    assert_eq!(theme_name_for(None, Some("default")), Some("default".to_string()));
    assert_eq!(theme_name_for(None, None), None);
}

#[test]
fn colors_accept_the_array_form() {
    let names = [
        "#000000", "#C51E14", "#1DC121", "#C7C329", "#0A2FC4", "#C839C5", "#20C5C6", "#C7C7C7",
        "#686868", "#FD6F6B", "#67F86F", "#FFFA72", "#6A76FB", "#FD7CFC", "#68FDFE", "#FFFFFF",
    ];
    let mut items: Vec<Json> = names.iter().map(|c| s(c)).collect();
    // colorCubes / grayscale trail the 16 ANSI slots and are ignored.
    items.push(obj(vec![]));
    items.push(obj(vec![]));
    let colors = ColorMap::from_value(&Json::Array(items));
    assert_eq!(colors.black.as_deref(), Some("#000000"));
    assert_eq!(colors.light_white.as_deref(), Some("#FFFFFF"));
    assert_eq!(colors.red.as_deref(), Some("#C51E14"));
}

#[test]
fn colors_object_form_drops_non_strings() {
    let value = obj(vec![("red", s("#f00")), ("green", n("3")), ("lightCyan", s("#0ff")), ("pink", s("#f0f"))]);
    let colors = ColorMap::from_value(&value);
    assert_eq!(colors.red.as_deref(), Some("#f00"));
    assert_eq!(colors.green, None);
    assert_eq!(colors.light_cyan.as_deref(), Some("#0ff"));
    let arr = colors.as_array();
    assert_eq!(arr[1].map(|s| s.as_str()), Some("#f00"));
    assert_eq!(arr[14].map(|s| s.as_str()), Some("#0ff"));
    assert_eq!(arr[0], None);
    assert_eq!(ColorMap::from_value(&s("nope")), ColorMap::default());
}

#[test]
fn color_map_set_by_name() {
    let mut c = ColorMap::default();
    c.set("lightBlue", "#00f".to_string());
    c.set("notAColor", "#fff".to_string());
    assert_eq!(c.light_blue.as_deref(), Some("#00f"));
    let mut expected = ColorMap::default();
    expected.light_blue = Some("#00f".to_string());
    assert_eq!(c, expected);
}

#[test]
fn font_weights() {
    assert!(FontWeight::Number(600).is_bold());
    assert!(!FontWeight::Number(599).is_bold());
    assert!(FontWeight::Keyword("BOLD".to_string()).is_bold());
    assert!(!FontWeight::Keyword("normal".to_string()).is_bold());
    assert!(FontWeight::Keyword("600".to_string()).is_bold());
    assert!(FontWeight::Keyword("+900".to_string()).is_bold());
    assert!(!FontWeight::Keyword("500".to_string()).is_bold());
    assert!(!FontWeight::Keyword("70000".to_string()).is_bold());
}

#[test]
fn parses_css_colors() {
    assert_eq!(parse_color("#000"), Some([0, 0, 0, 255]));
    assert_eq!(parse_color("rgba(248,28,229,0.8)"), Some([248, 28, 229, 204]));
    assert_eq!(parse_color("not a colour"), None);
}

#[test]
fn parses_css_theme_custom_properties() {
    let css = r#"
:root {
  --hyper-background: #1a1b26;
  --hyper-foreground: #c0caf5;
  --hyper-cursor: #c0caf5;
  --hyper-cursor-accent: #1a1b26;
  --hyper-light-white: #ffffff;
  --hyper-red: #f7768e;
}
"#;
    let theme = parse_css_theme(css);
    assert_eq!(theme.background_color.as_deref(), Some("#1a1b26"));
    assert_eq!(theme.cursor_accent_color.as_deref(), Some("#1a1b26"));
    let colors = theme.colors.unwrap();
    assert_eq!(colors.red.as_deref(), Some("#f7768e"));
    assert_eq!(colors.light_white.as_deref(), Some("#ffffff"));
    assert_eq!(colors.green, None);
}

#[test]
fn css_theme_later_declarations_win_and_empty_values_unset() {
    let css = "--HYPER-Background: #111;\n--hyper-background: #222;\n--hyper-border: ;\n";
    let theme = parse_css_theme(css);
    assert_eq!(theme.background_color.as_deref(), Some("#222"));
    assert_eq!(theme.border_color, None);
    assert_eq!(theme.colors, None);
}

#[test]
fn defaults_fill_unset_fields() {
    let resolved = resolve_profile_config(&Vec::new(), None, &Vec::new(), None);
    assert_eq!(resolved.scrollback, 1000);
    assert_eq!(resolved.padding, "12px 14px");
    assert!(resolved.preserve_cwd);
    assert_eq!(resolved, ResolvedConfig::default());
    assert_eq!(resolved.shell_args, vec!["--login".to_string()]);
    assert_eq!(resolved.opacity, Opacity::Single("0.95".to_string()));
    assert_eq!(resolved.font_weight, FontWeight::Keyword("normal".to_string()));
    assert_eq!(resolved.font_weight_bold, FontWeight::Keyword("bold".to_string()));
    assert_eq!(resolved.bell, Bell::Mode("SOUND".to_string()));
}

/// Keys that don't follow the camelCase rule must still be read.
#[test]
fn reads_non_camel_case_config_keys() {
    let root = members(vec![("preserveCWD", Json::Bool(false)), ("bellSoundURL", s("/tmp/ding.wav"))]);
    let resolved = resolve_profile_config(&root, None, &Vec::new(), None);
    assert!(!resolved.preserve_cwd);
    assert_eq!(resolved.bell_sound_url.as_deref(), Some("/tmp/ding.wav"));
}

/// One malformed value must not reset every other option.
#[test]
fn malformed_field_does_not_discard_the_rest() {
    let root = members(vec![
        ("fontSize", s("not a number")),
        ("cursorColor", Json::Null),
        ("backgroundColor", s("#1a1b26")),
        ("shell", s("/bin/fish")),
        ("scrollback", n("9000")),
    ]);
    let resolved = resolve_profile_config(&root, None, &Vec::new(), None);
    assert_eq!(resolved.background_color, "#1a1b26");
    assert_eq!(resolved.shell, "/bin/fish");
    assert_eq!(resolved.scrollback, 9000);
    // The bad ones fall back individually.
    assert_eq!(resolved.font_size.parse::<f32>().unwrap(), 14.0);
    assert_eq!(resolved.cursor_color, "rgba(248,28,229,0.8)");
}

#[test]
fn colors_array_form_does_not_break_siblings() {
    let names = [
        "#000000", "#C51E14", "#1DC121", "#C7C329", "#0A2FC4", "#C839C5", "#20C5C6", "#C7C7C7",
        "#686868", "#FD6F6B", "#67F86F", "#FFFA72", "#6A76FB", "#FD7CFC", "#68FDFE", "#FFFFFF",
    ];
    let mut items: Vec<Json> = names.iter().map(|c| s(c)).collect();
    items.push(obj(vec![]));
    items.push(obj(vec![]));
    let root = members(vec![("colors", Json::Array(items)), ("fontSize", n("16"))]);
    let resolved = resolve_profile_config(&root, None, &Vec::new(), None);
    assert_eq!(resolved.colors.black.as_deref(), Some("#000000"));
    assert_eq!(resolved.colors.light_white.as_deref(), Some("#FFFFFF"));
    assert_eq!(resolved.font_size.parse::<f32>().unwrap(), 16.0, "array colors don't break siblings");
}

#[test]
fn typed_options_take_every_documented_shape() {
    let root = members(vec![
        ("fontWeight", n("600")),
        ("fontWeightBold", s("900")),
        ("bell", Json::Bool(false)),
        ("modifierKeys", obj(vec![("altIsMeta", Json::Bool(true))])),
        ("opacity", obj(vec![("focus", n("1.0")), ("blur", n("0.7"))])),
        ("windowSize", Json::Array(vec![n("800"), n("600")])),
        ("env", obj(vec![("A", s("1")), ("B", s("2"))])),
        ("uiFontFamily", s("Inter")),
    ]);
    let r = resolve_profile_config(&root, None, &Vec::new(), None);
    assert_eq!(r.font_weight, FontWeight::Number(600));
    assert_eq!(r.font_weight_bold, FontWeight::Keyword("900".to_string()));
    assert_eq!(r.bell, Bell::Off(false));
    assert_eq!(r.modifier_keys, ModifierKeys { alt_is_meta: true, cmd_is_meta: false });
    assert_eq!(
        r.opacity,
        Opacity::FocusBlur { focus: Some("1.0".to_string()), blur: Some("0.7".to_string()) }
    );
    assert_eq!(r.window_size, Some(("800".to_string(), "600".to_string())));
    assert_eq!(r.env, vec![("A".to_string(), "1".to_string()), ("B".to_string(), "2".to_string())]);
    assert_eq!(r.ui_font_family.as_deref(), Some("Inter"));
}

#[test]
fn wrong_shapes_fall_back_one_option_at_a_time() {
    let root = members(vec![
        ("fontWeight", n("70000")),
        ("scrollback", n("1e3")),
        ("shellArgs", Json::Array(vec![s("-l"), n("1")])),
        ("env", obj(vec![("A", n("1"))])),
        ("modifierKeys", Json::Array(vec![Json::Bool(true), Json::Bool(true), Json::Bool(true)])),
        ("opacity", s("0.5")),
        ("windowSize", Json::Array(vec![n("800")])),
        ("copyOnSelect", s("yes")),
    ]);
    let r = resolve_profile_config(&root, None, &Vec::new(), None);
    assert_eq!(r.font_weight, FontWeight::Keyword("normal".to_string()));
    assert_eq!(r.scrollback, 1000);
    assert_eq!(r.shell_args, vec!["--login".to_string()]);
    assert!(r.env.is_empty());
    assert_eq!(r.modifier_keys, ModifierKeys::default());
    assert_eq!(r.opacity, Opacity::Single("0.95".to_string()));
    assert_eq!(r.window_size, None);
    assert!(!r.copy_on_select);
    // Array forms of the structured options.
    let arrays = members(vec![
        ("modifierKeys", Json::Array(vec![Json::Bool(false), Json::Bool(true)])),
        ("opacity", Json::Array(vec![Json::Null, n("0.5")])),
    ]);
    let a = resolve_profile_config(&arrays, None, &Vec::new(), None);
    assert_eq!(a.modifier_keys, ModifierKeys { alt_is_meta: false, cmd_is_meta: true });
    assert_eq!(a.opacity, Opacity::FocusBlur { focus: None, blur: Some("0.5".to_string()) });
}

/// The padding option as pixels: the library's sides, each read as a number.
fn parse_padding(p: &str) -> Option<(f32, f32, f32, f32)> {
    let (t, r, b, l) = padding_sides(p)?;
    let side = |s: &str| s.parse::<f32>().ok();
    Some((side(&t)?, side(&r)?, side(&b)?, side(&l)?))
}

#[test]
fn padding_shorthand_forms() {
    assert_eq!(parse_padding("12px 14px"), Some((12.0, 14.0, 12.0, 14.0)));
    assert_eq!(parse_padding("5"), Some((5.0, 5.0, 5.0, 5.0)));
    assert_eq!(
        parse_padding("1px 2px 3px 4px"),
        Some((1.0, 2.0, 3.0, 4.0))
    );
    assert_eq!(parse_padding("1 2 3"), Some((1.0, 2.0, 3.0, 2.0)));
    assert_eq!(parse_padding("garbage"), None);
}

#[test]
fn padding_sides_split_on_any_whitespace_and_drop_px() {
    let four = |a: &str, b: &str, c: &str, d: &str| {
        Some((a.to_string(), b.to_string(), c.to_string(), d.to_string()))
    };
    assert_eq!(padding_sides("  12pxpx\t14px\n"), four("12", "14", "12", "14"));
    assert_eq!(padding_sides("1 2 3 4 5"), None);
    assert_eq!(padding_sides("   "), None);
    assert_eq!(padding_sides("px"), four("", "", "", ""));
}

fn opacity_of(value: Json) -> Opacity {
    resolve_profile_config(&members(vec![("opacity", value)]), None, &Vec::new(), None).opacity
}

fn as_f32(text: Option<String>) -> f32 {
    text.map(|t| t.parse::<f32>().unwrap()).unwrap_or(1.0)
}

#[test]
fn opacity_variants_deserialize() {
    let single = opacity_of(n("0.9"));
    assert_eq!(as_f32(single.focused_text()), 0.9);
    let split = opacity_of(obj(vec![("focus", n("1.0")), ("blur", n("0.7"))]));
    assert_eq!(as_f32(split.blurred_text()), 0.7);
    assert_eq!(as_f32(split.focused_text()), 1.0);
}

#[test]
fn blurred_opacity_falls_back_to_focus() {
    let only_focus = Opacity::FocusBlur { focus: Some("0.8".to_string()), blur: None };
    assert_eq!(only_focus.blurred_text(), Some("0.8".to_string()));
    let neither = Opacity::FocusBlur { focus: None, blur: None };
    assert_eq!(neither.focused_text(), None);
    assert_eq!(neither.blurred_text(), None);
}
