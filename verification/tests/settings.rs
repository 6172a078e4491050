use hyper_revamp::json::{get_path, remove_path, Json};
use hyper_revamp::settings::{
    binding_parts, binding_text, binding_value, normalize_text, ParsedText, ReloadDecision, Section, SettingsDraft,
    SshTestPlan,
};
use serde_json::Value;

/// A JSON value written as text.
fn val(text: &str) -> Value {
    serde_json::from_str(text).unwrap()
}

fn from_value(v: &Value) -> Json {
    match v {
        Value::Null => Json::Null,
        Value::Bool(b) => Json::Bool(*b),
        Value::Number(n) => Json::Number(n.to_string()),
        Value::String(s) => Json::Str(s.clone()),
        Value::Array(items) => Json::Array(items.iter().map(from_value).collect()),
        Value::Object(m) => Json::Object(m.iter().map(|(k, v)| (k.clone(), from_value(v))).collect()),
    }
}

fn to_value(j: &Json) -> Value {
    match j {
        Json::Null => Value::Null,
        Json::Bool(b) => Value::Bool(*b),
        Json::Number(t) => serde_json::from_str(t).unwrap(),
        Json::Str(s) => Value::String(s.clone()),
        Json::Array(items) => Value::Array(items.iter().map(to_value).collect()),
        Json::Object(m) => Value::Object(m.iter().map(|(k, v)| (k.clone(), to_value(v))).collect()),
    }
}

/// `JSON.stringify(value, null, 2) + '\n'`, as the app formats drafts.
fn format_json(j: &Json) -> String {
    let mut text = serde_json::to_string_pretty(&to_value(j)).unwrap();
    text.push('\n');
    text
}

fn parse(text: &str) -> ParsedText {
    match serde_json::from_str::<Value>(text) {
        Ok(v) => ParsedText::Value(from_value(&v)),
        Err(e) => ParsedText::Invalid(e.to_string()),
    }
}

fn switch(w: &mut SettingsDraft, section: Section) {
    w.switch_to(section);
}

fn draft(doc: Value, defaults: Value) -> SettingsDraft {
    let mut w = SettingsDraft::new(from_value(&defaults));
    let d = from_value(&doc);
    w.load_from(&d, None, 0);
    w
}

/// The editor hands back the user's own document, not the defaults-merged
/// one: saving the merge would pin every current default into the file.
#[test]
fn drafts_start_from_the_user_document_and_only_display_defaults() {
    let mut w = draft(val(r#"{"config": {"fontSize": 18}}"#), val(r#"{"config": {"fontSize": 12, "cursorShape": "BLOCK"}}"#));

    // The user's value wins; an undeclared key falls back to the default…
    assert_eq!(w.effective(&["config", "fontSize"]), Some(&from_value(&val(r#"18"#))));
    assert_eq!(w.effective(&["config", "cursorShape"]), Some(&from_value(&val(r#""BLOCK""#))));
    // …but only for display — it is not in the document that gets saved.
    assert!(get_path(&w.doc, &["config", "cursorShape"]).is_none());
    assert!(!w.visual_dirty());

    // Resetting removes the key rather than writing the default in.
    remove_path(&mut w.doc, &["config", "fontSize"]);
    assert_eq!(w.effective(&["config", "fontSize"]), Some(&from_value(&val(r#"12"#))));
    assert!(w.visual_dirty());
    assert_eq!(w.doc, from_value(&val(r#"{"config": {}}"#)));
}

/// Switching tabs carries the draft across; an unparseable JSON draft
/// blocks the switch instead of being thrown away.
#[test]
fn tab_switch_syncs_drafts_and_refuses_invalid_json() {
    let mut w = draft(val(r#"{"config": {"fontSize": 18}}"#), val(r#"{}"#));

    switch(&mut w, Section::Json);
    assert_eq!(w.section, Section::Json);
    assert!(w.json_text.contains("\"fontSize\": 18"));

    // A valid edit comes back through to the visual editor.
    w.json_text = val(r#"{"config": {"fontSize": 20}}"#).to_string();
    switch(&mut w, Section::Terminal);
    assert_eq!(get_path(&w.doc, &["config", "fontSize"]), Some(&from_value(&val(r#"20"#))));

    // A broken one keeps the user on the JSON tab with their text intact.
    switch(&mut w, Section::Json);
    w.json_text = "{\"config\": ".into();
    switch(&mut w, Section::Terminal);
    assert_eq!(w.section, Section::Json);
    assert!(w.json_error.is_some());
    assert_eq!(w.json_text, "{\"config\": ");

    // A document that is not an object is refused too.
    w.json_text = "[1]".into();
    switch(&mut w, Section::Terminal);
    assert_eq!(w.section, Section::Json);
    assert_eq!(w.json_error.as_deref(), Some("Configuration root must be a JSON object."));
}

/// A command bound to several chords survives a round trip through the
/// keymap editor's single-line field.
#[test]
fn keymap_lists_stay_lists() {
    let value = from_value(&val(r#"["command+t", "ctrl+t"]"#));
    let text = binding_text(&value);
    assert_eq!(text, "command+t, ctrl+t");

    let parts = binding_parts(&text);
    assert_eq!(parts, vec!["command+t".to_string(), "ctrl+t".to_string()]);
    assert_eq!(binding_value(&text, true), value);
    // A single binding typed into a string field stays a string.
    assert_eq!(binding_value("ctrl+t", false), Json::Str("ctrl+t".to_string()));
    assert_eq!(binding_value(" a , , b ", false), from_value(&val(r#"["a", "b"]"#)));
}

#[test]
fn only_the_active_editor_counts_as_unsaved() {
    let mut w = draft(val(r#"{"a": 1}"#), val(r#"{}"#));
    assert!(!w.dirty());
    w.json_text = "{\"a\": 2}".to_string();
    // The document editor is active, so the text edit does not count.
    assert!(!w.dirty());
    assert!(w.text_dirty());
    // Line endings and trailing space do not make a text dirty.
    assert_eq!(normalize_text("a\r\nb \n\n"), "a\nb");
}

#[test]
fn file_changes_reload_clean_drafts_and_warn_about_dirty_ones() {
    let mut w = draft(val(r#"{"a": 1}"#), val(r#"{}"#));
    assert_eq!(w.on_file_change(0), ReloadDecision::Keep);
    assert_eq!(w.on_file_change(1), ReloadDecision::Reload);
    assert!(!w.reload_requested);
    w.doc = from_value(&val(r#"{"a": 2}"#));
    assert_eq!(w.on_file_change(1), ReloadDecision::Warn);
    assert!(w.reload_requested);
    assert!(!w.should_load_on_open(0));
    assert!(w.should_load_on_open(1));

    w.save_succeeded("{\"a\": 2}\n".to_string(), from_value(&val(r#"{"a": 2}"#)), "/cfg/hyper-revamp.json");
    assert!(!w.dirty());
    assert_eq!(w.status.as_deref(), Some("Saved /cfg/hyper-revamp.json"));
    w.save_failed("disk full".to_string());
    assert_eq!(w.status.as_deref(), Some("Save failed: disk full"));
    w.reset(&["a"]);
    assert_eq!(w.doc, from_value(&val(r#"{}"#)));
    assert!(w.status.is_none());
}

fn draft_with(user: &str) -> SettingsDraft {
    let mut w = SettingsDraft::new(from_value(&val(r#"{"config": {"profiles": []}}"#)));
    w.doc = from_value(&val(user));
    w
}

fn strings(list: &[&str]) -> Vec<String> {
    list.iter().map(|s| s.to_string()).collect()
}

#[test]
fn ssh_test_needs_a_host_and_a_user() {
    let w = draft_with(r#"{"config": {"profiles": [{"name": "a", "ssh": {"host": "example.com"}}]}}"#);
    assert_eq!(w.ssh_test_plan(0), Err("host and user are required".to_string()));
    assert_eq!(w.ssh_test_plan(3), Err("host and user are required".to_string()));
}

#[test]
fn ssh_test_with_keys_runs_in_batch_mode() {
    let w = draft_with(
        r#"{"config": {"profiles": [{"name": "a"}, {"name": "b", "ssh": {"host": "h", "user": "u", "port": 2222, "identityFile": "~/.ssh/id"}}]}}"#,
    );
    assert_eq!(
        w.ssh_test_plan(1),
        Ok(SshTestPlan {
            args: strings(&[
                "-o",
                "ConnectTimeout=8",
                "-o",
                "StrictHostKeyChecking=accept-new",
                "-p",
                "2222",
                "-o",
                "BatchMode=yes",
                "-i",
                "~/.ssh/id",
                "u@h",
                "exit",
            ]),
            password_auth: false,
            password: None,
        })
    );
}

#[test]
fn ssh_test_with_a_password_uses_password_auth_only() {
    let w = draft_with(
        r#"{"config": {"profiles": [{"name": "a", "ssh": {"host": "h", "user": "u", "port": "22", "authType": "password", "password": "hunter2", "identityFile": "k"}}]}}"#,
    );
    assert_eq!(
        w.ssh_test_plan(0),
        Ok(SshTestPlan {
            args: strings(&[
                "-o",
                "ConnectTimeout=8",
                "-o",
                "StrictHostKeyChecking=accept-new",
                "-o",
                "PreferredAuthentications=password",
                "-o",
                "PubkeyAuthentication=no",
                "u@h",
                "exit",
            ]),
            password_auth: true,
            password: Some("hunter2".to_string()),
        })
    );
}

#[test]
fn adding_a_profile_seeds_the_list_and_names_it_by_count() {
    let mut w = SettingsDraft::new(from_value(&val(
        r#"{"config": {"profiles": [{"name": "default", "config": {}}]}}"#,
    )));
    assert_eq!(w.profiles_view().len(), 1);
    assert_eq!(w.add_profile(), 1);
    assert_eq!(
        to_value(&w.doc),
        val(r#"{"config": {"profiles": [{"name": "default", "config": {}}, {"name": "profile-2", "config": {}}]}}"#)
    );
    assert_eq!(w.add_profile(), 2);
    assert_eq!(to_value(get_path(&w.doc, &["config", "profiles", "2", "name"]).unwrap()), val(r#""profile-3""#));
}

#[test]
fn with_no_profiles_anywhere_one_named_default_is_shown() {
    let w = SettingsDraft::new(from_value(&val(r#"{"config": {}}"#)));
    let shown = w.profiles_view();
    assert_eq!(shown.len(), 1);
    assert_eq!(to_value(&shown[0]), val(r#"{"name": "default", "config": {}}"#));
}

#[test]
fn the_last_profile_cannot_be_deleted() {
    let mut w = draft_with(r#"{"config": {"profiles": [{"name": "a"}, {"name": "b"}]}}"#);
    assert!(!w.delete_profile(2));
    assert!(w.delete_profile(0));
    assert_eq!(to_value(&w.doc), val(r#"{"config": {"profiles": [{"name": "b"}]}}"#));
    assert!(!w.delete_profile(0));
    assert_eq!(to_value(&w.doc), val(r#"{"config": {"profiles": [{"name": "b"}]}}"#));
}

#[test]
fn set_default_profile_writes_the_name() {
    let mut w = draft_with(r#"{"config": {"profiles": [{"name": "a"}, {"name": "b"}]}}"#);
    w.set_default_profile("b");
    assert_eq!(to_value(get_path(&w.doc, &["config", "defaultProfile"]).unwrap()), val(r#""b""#));
    assert_eq!(w.status, None);
}

#[test]
fn switching_with_given_texts_agrees_with_switching() {
    let mut a = draft(val(r#"{"config": {"fontSize": 18}}"#), val(r#"{"config": {}}"#));
    let mut b = draft(val(r#"{"config": {"fontSize": 18}}"#), val(r#"{"config": {}}"#));
    a.switch_to(Section::Json);
    let formatted = format_json(&b.doc);
    let parsed = parse(&b.json_text);
    b.switch_with(Section::Json, formatted, parsed);
    assert_eq!(a.json_text, b.json_text);
    assert_eq!(a.json_text, "{\n  \"config\": {\n    \"fontSize\": 18\n  }\n}\n");
}

#[test]
fn save_source_takes_the_json_tab_text_or_the_formatted_document() {
    let mut w = draft(val(r#"{"config": {"fontSize": 18}}"#), val(r#"{"config": {}}"#));
    let (text, doc) = w.save_source().unwrap();
    assert_eq!(text, "{\n  \"config\": {\n    \"fontSize\": 18\n  }\n}\n");
    assert_eq!(to_value(&doc), val(r#"{"config": {"fontSize": 18}}"#));
    switch(&mut w, Section::Json);
    w.json_text = "{\"config\":{}}".to_string();
    let (text, doc) = w.save_source().unwrap();
    assert_eq!(text, "{\"config\":{}}");
    assert_eq!(to_value(&doc), val(r#"{"config": {}}"#));
    w.json_text = "{".to_string();
    assert!(w.save_source().is_err());
}
