use hyper_revamp::json::Json;
use hyper_revamp::keymap::{Command, OneOrMany};
use hyper_revamp::model::{ProfileDef, SshProfileDef};
use hyper_revamp::platform::Platform;
use hyper_revamp::snapshot::{keymaps_section, register_themes, ConfigSnapshot};
use hyper_revamp::theme::{parse_css_theme, ColorMap};
use hyper_revamp::typed_root::{normalize_theme, TypedRoot};

fn s(t: &str) -> Json {
    Json::Str(t.to_string())
}

fn n(t: &str) -> Json {
    Json::Number(t.to_string())
}

fn obj(list: Vec<(&str, Json)>) -> Json {
    Json::Object(list.into_iter().map(|(k, v)| (k.to_string(), v)).collect())
}

fn members(list: Vec<(&str, Json)>) -> Vec<(String, Json)> {
    list.into_iter().map(|(k, v)| (k.to_string(), v)).collect()
}

#[test]
fn default_document_parses_and_resolves() {
    let config = obj(vec![
        ("defaultProfile", s("default")),
        ("profiles", Json::Array(vec![obj(vec![("name", s("default")), ("config", obj(vec![]))])])),
    ]);
    let root = TypedRoot::from_json(&config);
    assert_eq!(root.default_profile.as_deref(), Some("default"));
    assert_eq!(root.profiles.len(), 1);
    assert_eq!(root.default_theme.as_deref(), Some("default"));
}

#[test]
fn one_malformed_profile_does_not_take_the_others() {
    let config = obj(vec![
        (
            "profiles",
            Json::Array(vec![
                obj(vec![("name", s("work")), ("type", s("ssh")), ("ssh", obj(vec![("host", s("h")), ("port", s(" 2222 "))]))]),
                n("7"),
                obj(vec![("name", n("3")), ("theme", s("nord")), ("config", s("not an object"))]),
            ]),
        ),
        ("defaultTheme", s("")),
        ("restoreSession", Json::Bool(true)),
        ("themes", s("nope")),
    ]);
    let root = TypedRoot::from_json(&config);
    assert_eq!(root.profiles.len(), 3);
    assert_eq!(root.profiles[0].name, "work");
    assert!(root.profiles[0].is_ssh());
    let ssh = root.profiles[0].ssh.as_ref().unwrap();
    assert_eq!(ssh.host, "h");
    assert_eq!(ssh.port, Some(2222));
    assert_eq!(root.profiles[1].name, "");
    assert_eq!(root.profiles[2].name, "");
    assert_eq!(root.profiles[2].theme.as_deref(), Some("nord"));
    assert!(root.profiles[2].config.is_empty());
    assert_eq!(root.default_theme.as_deref(), Some("default"));
    assert_eq!(root.restore_session, Some(true));
    assert!(root.themes.is_none());
}

#[test]
fn ssh_settings_read_each_key_on_its_own() {
    let v = obj(vec![
        ("host", s("example.org")),
        ("user", n("5")),
        ("port", n("70000")),
        ("forwardAgent", Json::Bool(true)),
        ("extraArgs", Json::Array(vec![s("-v"), s("-C")])),
        ("authType", s("password")),
    ]);
    let ssh = SshProfileDef::from_json(&v);
    assert_eq!(ssh.host, "example.org");
    assert_eq!(ssh.user, "");
    assert_eq!(ssh.port, None);
    assert_eq!(ssh.forward_agent, Some(true));
    assert_eq!(ssh.extra_args, Some(vec!["-v".to_string(), "-C".to_string()]));
    assert!(ssh.uses_password_auth());
    assert_eq!(SshProfileDef::from_json(&obj(vec![("port", n("22"))])).port, Some(22));
    assert_eq!(SshProfileDef::from_json(&s("x")), SshProfileDef::default());
    let p = ProfileDef::from_json(&obj(vec![("ssh", Json::Null)]));
    assert!(p.ssh.is_none());
}

#[test]
fn themes_keep_usable_options_and_every_other_key() {
    let raw = obj(vec![
        ("backgroundColor", s("#111")),
        ("foregroundColor", n("3")),
        ("colors", obj(vec![("red", s("#e00")), ("pink", s("#f0f"))])),
        ("fontWeight", n("600")),
        ("padding", s("0px")),
        ("cursorShape", s("BEAM")),
    ]);
    let t = normalize_theme(&raw);
    assert_eq!(
        t,
        members(vec![
            ("backgroundColor", s("#111")),
            ("colors", obj(vec![("red", s("#e00"))])),
            ("fontWeight", n("600")),
            ("padding", s("0px")),
            ("cursorShape", s("BEAM")),
        ])
    );
    // Colours that set no slot are dropped.
    assert_eq!(normalize_theme(&obj(vec![("colors", obj(vec![]))])), Vec::new());
    assert_eq!(normalize_theme(&s("x")), Vec::new());
}

#[test]
fn css_themes_become_theme_members() {
    let theme = parse_css_theme(":root { --hyper-background: #101010; --hyper-red: #f00; }");
    let t = theme.to_members();
    assert_eq!(t, members(vec![("backgroundColor", s("#101010")), ("colors", obj(vec![("red", s("#f00"))]))]));
    assert_eq!(ColorMap::default().to_members(), Vec::new());
}

#[test]
fn config_themes_replace_bundled_ones_by_name() {
    let mut all = vec![
        ("default".to_string(), members(vec![("backgroundColor", s("#000"))])),
        ("nord".to_string(), members(vec![("backgroundColor", s("#2e3440"))])),
    ];
    let layer = vec![
        ("nord".to_string(), members(vec![("backgroundColor", s("#000000"))])),
        ("mine".to_string(), members(vec![])),
    ];
    register_themes(&mut all, &layer);
    let names: Vec<&str> = all.iter().map(|(k, _)| k.as_str()).collect();
    assert_eq!(names, vec!["default", "nord", "mine"]);
    assert_eq!(all[1].1, members(vec![("backgroundColor", s("#000000"))]));
}

#[test]
fn keymaps_section_is_all_or_nothing() {
    let ok = obj(vec![("tab:new", s("ctrl+t")), ("tab:next", Json::Array(vec![s("a"), s("b")]))]);
    let section = keymaps_section(Some(&ok));
    assert_eq!(section.len(), 2);
    assert_eq!(section[1].1, OneOrMany::Many(vec!["a".to_string(), "b".to_string()]));
    let bad = obj(vec![("tab:new", s("ctrl+t")), ("tab:next", n("1"))]);
    assert!(keymaps_section(Some(&bad)).is_empty());
    assert!(keymaps_section(None).is_empty());
}

#[test]
fn snapshot_merges_documents_profiles_themes_and_keymap() {
    let defaults = obj(vec![(
        "config",
        obj(vec![("scrollback", n("1000")), ("padding", s("12px 14px")), ("defaultProfile", s("default"))]),
    )]);
    let user = obj(vec![
        (
            "config",
            obj(vec![
                ("scrollback", n("5000")),
                ("profiles", Json::Array(vec![obj(vec![("name", s("  ")), ("config", obj(vec![("shell", s("/bin/zsh"))]))])])),
                ("themes", obj(vec![("night", obj(vec![("backgroundColor", s("#111"))]))])),
                ("defaultTheme", s("night")),
            ]),
        ),
        ("keymaps", obj(vec![("tab:new", s("ctrl+shift+t"))])),
    ]);
    let defaults_keymap = vec![("tab:new".to_string(), OneOrMany::One("ctrl+t".to_string()))];
    let snap = ConfigSnapshot::assemble(&defaults, user, None, None, Vec::new(), &defaults_keymap, Platform::Linux, 7);
    assert_eq!(snap.generation, 7);
    assert_eq!(snap.root.profiles.len(), 1);
    assert_eq!(snap.root.profiles[0].name, "profile-1");
    // `default` names no profile, so the first one is the default.
    assert_eq!(snap.default_profile_name(), "profile-1");
    assert!(snap.profile("profile-1").is_some());
    assert!(snap.profile("default").is_none());
    let r = snap.resolved(None);
    assert_eq!(r.scrollback, 5000);
    assert_eq!(r.padding, "12px 14px");
    assert_eq!(r.shell, "/bin/zsh");
    assert_eq!(r.background_color, "#111");
    assert_eq!(snap.themes.len(), 1);
    assert_eq!(snap.keymap.len(), 1);
    assert_eq!(snap.keymap[0].1, Command::NewTab);
    assert!(snap.keymap[0].0.shift);
}

#[test]
fn snapshot_without_a_config_section_has_the_default_profile() {
    let snap = ConfigSnapshot::assemble(&obj(vec![]), obj(vec![]), None, Some("bad".to_string()), Vec::new(), &Vec::new(), Platform::Linux, 0);
    assert_eq!(snap.root.profiles.len(), 1);
    assert_eq!(snap.root.profiles[0].name, "default");
    assert!(snap.root.default_theme.is_none());
    assert_eq!(snap.parse_error.as_deref(), Some("bad"));
    assert!(snap.keymap.is_empty());
    let r = snap.resolved(Some("nope"));
    assert_eq!(r.scrollback, 1000);
}
