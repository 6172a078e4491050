use hyper_revamp::json::{format_json, Json};
use hyper_revamp::snapshot::{document_bytes, save_bytes, user_document_of, ConfigRead};
use hyper_revamp::typed_root::theme_of_text;

fn obj(members: Vec<(&str, Json)>) -> Json {
    Json::Object(members.into_iter().map(|(k, v)| (k.to_string(), v)).collect())
}

#[test]
fn saving_text_validates_and_ends_in_a_newline() {
    assert_eq!(save_bytes("{\"config\": {}}"), Ok(b"{\"config\": {}}\n".to_vec()));
    assert_eq!(save_bytes("{}\n"), Ok(b"{}\n".to_vec()));
    assert_eq!(save_bytes("[1]"), Err("Configuration root must be a JSON object.".to_string()));
    assert_eq!(save_bytes("{\"config\": 3}"), Err("`config` must be a JSON object.".to_string()));
    let err = save_bytes("{").unwrap_err();
    assert_eq!(err, serde_json::from_str::<serde_json::Value>("{").unwrap_err().to_string());
}

#[test]
fn saving_a_document_writes_pretty_json() {
    let doc = obj(vec![("config", obj(vec![("fontSize", Json::Number("12".to_string()))]))]);
    assert_eq!(
        document_bytes(&doc),
        Ok(b"{\n  \"config\": {\n    \"fontSize\": 12\n  }\n}\n".to_vec())
    );
    assert_eq!(format_json(&Json::Array(vec![])), "[]\n");
    assert_eq!(document_bytes(&Json::Null), Err("Configuration root must be a JSON object.".to_string()));
}

#[test]
fn the_user_document_follows_how_the_read_went() {
    let (doc, text, err) = user_document_of(ConfigRead::Text("{\"a\": true}".to_string()));
    assert_eq!(doc, obj(vec![("a", Json::Bool(true))]));
    assert_eq!(text.as_deref(), Some("{\"a\": true}"));
    assert_eq!(err, None);

    let (doc, text, err) = user_document_of(ConfigRead::Text("{oops".to_string()));
    assert_eq!(doc, obj(vec![]));
    assert_eq!(text.as_deref(), Some("{oops"));
    assert!(err.is_some());

    let (doc, text, err) =
        user_document_of(ConfigRead::FirstRun { default_text: "{\"b\": 1}".to_string(), written: false });
    assert_eq!(doc, obj(vec![("b", Json::Number("1".to_string()))]));
    assert_eq!(text, None);
    assert_eq!(err, None);
    let (_, text, _) =
        user_document_of(ConfigRead::FirstRun { default_text: "{}".to_string(), written: true });
    assert_eq!(text.as_deref(), Some("{}"));

    let (doc, text, err) = user_document_of(ConfigRead::Failed("couldn't read x: denied".to_string()));
    assert_eq!(doc, obj(vec![]));
    assert_eq!(text, None);
    assert_eq!(err.as_deref(), Some("couldn't read x: denied"));
}

#[test]
fn theme_files_are_parsed_then_normalized() {
    let theme = theme_of_text("{\"backgroundColor\": \"#000\"}").unwrap();
    assert_eq!(theme, vec![("backgroundColor".to_string(), Json::Str("#000".to_string()))]);
    assert!(theme_of_text("not json").is_err());
}
