use hyper_revamp::env::{base_env, default_shell, env_for_locale};
use hyper_revamp::paths::{watch_relevant, cfg_dir, cfg_path, join, schema_path, session_state_path, socket_path, themes_dir, windows_state_path, PathEnv};
use hyper_revamp::platform::Platform;

fn env_with(xdg: Option<&str>, home: Option<&str>, config: Option<&str>) -> PathEnv {
    PathEnv {
        xdg_config_home: xdg.map(|s| s.to_string()),
        home_dir: home.map(|s| s.to_string()),
        config_dir: config.map(|s| s.to_string()),
    }
}

fn lookup<'a>(env: &'a [(String, String)], k: &str) -> Option<&'a str> {
    env.iter().find(|(n, _)| n == k).map(|(_, v)| v.as_str())
}

#[test]
fn xdg_config_home_wins_when_set() {
    let e = env_with(Some("/x/cfg"), Some("/home/u"), None);
    assert_eq!(cfg_dir(&e, Platform::Linux), "/x/cfg/hyper-revamp");
    assert_eq!(cfg_path(&e, Platform::Linux), "/x/cfg/hyper-revamp/hyper-revamp.json");
    assert_eq!(themes_dir(&e, Platform::Linux), "/x/cfg/hyper-revamp/themes");
    assert_eq!(schema_path(&e, Platform::Linux), "/x/cfg/hyper-revamp/schema.json");
    assert_eq!(session_state_path(&e, Platform::Linux), "/x/cfg/hyper-revamp/session-state.json");
    assert_eq!(windows_state_path(&e, Platform::Linux), "/x/cfg/hyper-revamp/windows-state.json");
}

#[test]
fn empty_xdg_falls_back_to_the_home_config_directory() {
    let e = env_with(Some(""), Some("/home/u"), None);
    assert_eq!(cfg_dir(&e, Platform::Linux), "/home/u/.config/hyper-revamp");
    assert_eq!(cfg_dir(&e, Platform::MacOs), "/home/u/.config/hyper-revamp");
    let none = env_with(None, None, None);
    assert_eq!(cfg_dir(&none, Platform::Linux), "./.config/hyper-revamp");
}

#[test]
fn windows_uses_the_platform_config_directory() {
    let e = env_with(None, Some("C:\\Users\\u"), Some("C:\\Users\\u\\AppData\\Roaming"));
    assert_eq!(cfg_dir(&e, Platform::Windows), "C:\\Users\\u\\AppData\\Roaming\\hyper-revamp");
    assert_eq!(join("C:", "x", Platform::Windows), "C:x");
    assert_eq!(join("/a/", "b", Platform::Linux), "/a/b");
    assert_eq!(join("", "b", Platform::Linux), "b");
}

#[test]
fn long_config_directories_put_the_socket_in_the_temp_directory() {
    let short = env_with(Some("/c"), None, None);
    assert_eq!(socket_path(&short, Platform::Linux, "/tmp", 0xab), "/c/hyper-revamp/hyper-revamp.sock");
    let long_dir = format!("/{}", "d".repeat(90));
    let long = env_with(Some(&long_dir), None, None);
    assert_eq!(socket_path(&long, Platform::Linux, "/tmp", 0xab), "/tmp/hyper-revamp-00000000000000ab.sock");
}

#[test]
fn session_environment_has_the_base_variables_under_the_profile_ones() {
    let profile = vec![("TERM".to_string(), "screen".to_string()), ("FOO".to_string(), "bar".to_string())];
    let env = env_for_locale(Some("de-DE"), "1.2.3", &profile);
    assert_eq!(lookup(&env, "LANG"), Some("de_DE.UTF-8"));
    assert_eq!(lookup(&env, "TERM"), Some("screen"));
    assert_eq!(lookup(&env, "COLORTERM"), Some("truecolor"));
    assert_eq!(lookup(&env, "TERM_PROGRAM"), Some("hyper-revamp"));
    assert_eq!(lookup(&env, "TERM_PROGRAM_VERSION"), Some("1.2.3"));
    assert_eq!(lookup(&env, "FOO"), Some("bar"));
    assert_eq!(env.len(), 6);
    let unknown = env_for_locale(None, "0", &Vec::new());
    assert_eq!(lookup(&unknown, "LANG"), Some("en_US.UTF-8"));
    // With the machine's own locale, the fixed variables are the same.
    let system = base_env("9", &Vec::new());
    assert_eq!(lookup(&system, "TERM"), Some("xterm-256color"));
    assert_eq!(lookup(&system, "TERM_PROGRAM_VERSION"), Some("9"));
    assert!(lookup(&system, "LANG").unwrap().ends_with(".UTF-8"));
}

#[test]
fn default_shell_prefers_a_nonempty_shell_variable() {
    assert_eq!(default_shell(Some("/usr/bin/fish"), None, Platform::Linux), "/usr/bin/fish");
    assert_eq!(default_shell(Some(""), None, Platform::Linux), "/bin/sh");
    assert_eq!(default_shell(None, None, Platform::MacOs), "/bin/zsh");
    assert_eq!(default_shell(None, Some("C:\\cmd.exe"), Platform::Windows), "C:\\cmd.exe");
    assert_eq!(default_shell(None, None, Platform::Windows), "cmd.exe");
}

#[test]
fn only_config_and_theme_changes_are_relevant() {
    assert!(watch_relevant(Some("hyper-revamp.json"), Some("hyper-revamp")));
    assert!(watch_relevant(Some("nord.css"), Some("themes")));
    assert!(!watch_relevant(Some("session-state.json"), Some("hyper-revamp")));
    assert!(!watch_relevant(None, None));
}
