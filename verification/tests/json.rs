use hyper_revamp::json::{deep_merge, get_path, merge_shallow, remove_path, set_path, validate_root, Json};

fn s(t: &str) -> Json {
    Json::Str(t.to_string())
}

fn n(t: &str) -> Json {
    Json::Number(t.to_string())
}

fn obj(members: Vec<(&str, Json)>) -> Json {
    Json::Object(members.into_iter().map(|(k, v)| (k.to_string(), v)).collect())
}

fn arr(items: Vec<Json>) -> Json {
    Json::Array(items)
}

fn member<'a>(j: &'a Json, key: &str) -> &'a Json {
    get_path(j, &[key]).unwrap()
}

#[test]
fn path_helpers_roundtrip() {
    let mut doc = obj(vec![("config", obj(vec![("profiles", arr(vec![obj(vec![("name", s("a"))])]))]))]);
    set_path(&mut doc, &["config", "profiles", "0", "name"], s("b"));
    assert_eq!(get_path(&doc, &["config", "profiles", "0", "name"]), Some(&s("b")));
    set_path(&mut doc, &["config", "env", "FOO"], s("1"));
    assert_eq!(get_path(&doc, &["config", "env", "FOO"]), Some(&s("1")));
    remove_path(&mut doc, &["config", "env", "FOO"]);
    assert!(get_path(&doc, &["config", "env", "FOO"]).is_none());
}

#[test]
fn numeric_segment_creates_an_array_not_an_object() {
    let mut doc = obj(vec![]);
    set_path(&mut doc, &["config", "profiles", "0", "name"], s("work"));
    assert_eq!(
        doc,
        obj(vec![("config", obj(vec![("profiles", arr(vec![obj(vec![("name", s("work"))])]))]))])
    );
    assert!(matches!(get_path(&doc, &["config", "profiles"]), Some(Json::Array(_))));
}

#[test]
fn index_writes_pad_arrays_with_nulls() {
    let mut doc = obj(vec![("list", arr(vec![n("1")]))]);
    set_path(&mut doc, &["list", "3"], n("4"));
    assert_eq!(
        get_path(&doc, &["list"]),
        Some(&arr(vec![n("1"), Json::Null, Json::Null, n("4")]))
    );
    set_path(&mut doc, &["list", "+1"], s("x"));
    assert_eq!(get_path(&doc, &["list", "1"]), Some(&s("x")));
}

#[test]
fn scalar_intermediates_are_replaced_by_containers() {
    let mut doc = obj(vec![("a", n("5"))]);
    set_path(&mut doc, &["a", "b"], Json::Bool(true));
    assert_eq!(doc, obj(vec![("a", obj(vec![("b", Json::Bool(true))]))]));
    let mut root = s("not an object");
    set_path(&mut root, &["k"], Json::Null);
    assert_eq!(root, obj(vec![("k", Json::Null)]));
}

#[test]
fn empty_path_reads_the_root_and_writes_nothing() {
    let mut doc = obj(vec![("a", n("1"))]);
    assert_eq!(get_path(&doc, &[]), Some(&obj(vec![("a", n("1"))])));
    set_path(&mut doc, &[], n("2"));
    remove_path(&mut doc, &[]);
    assert_eq!(doc, obj(vec![("a", n("1"))]));
}

#[test]
fn removing_an_array_element_shifts_the_rest() {
    let mut doc = obj(vec![("l", arr(vec![n("1"), n("2"), n("3")]))]);
    remove_path(&mut doc, &["l", "0"]);
    assert_eq!(get_path(&doc, &["l"]), Some(&arr(vec![n("2"), n("3")])));
    remove_path(&mut doc, &["l", "9"]);
    remove_path(&mut doc, &["missing", "x"]);
    assert_eq!(doc, obj(vec![("l", arr(vec![n("2"), n("3")]))]));
}

#[test]
fn deep_merge_keeps_unknown_and_overrides() {
    let defaults = obj(vec![
        ("config", obj(vec![("scrollback", n("1000")), ("padding", s("12px 14px"))])),
        ("plugins", arr(vec![])),
    ]);
    let user = obj(vec![
        ("config", obj(vec![("scrollback", n("5000"))])),
        ("plugins", arr(vec![s("hyperpower")])),
        ("$schema", s("x")),
    ]);
    let merged = deep_merge(&defaults, &user);
    assert_eq!(get_path(&merged, &["config", "scrollback"]), Some(&n("5000")));
    assert_eq!(get_path(&merged, &["config", "padding"]), Some(&s("12px 14px")));
    assert_eq!(member(&merged, "plugins"), &arr(vec![s("hyperpower")]));
    assert_eq!(member(&merged, "$schema"), &s("x"));
}

#[test]
fn deep_merge_replaces_non_objects() {
    assert_eq!(deep_merge(&obj(vec![("a", n("1"))]), &n("2")), n("2"));
    assert_eq!(deep_merge(&n("1"), &obj(vec![("a", n("2"))])), obj(vec![("a", n("2"))]));
}

#[test]
fn shallow_merge_combines_objects_one_level() {
    let mut acc = vec![
        ("colors".to_string(), obj(vec![("red", s("#f00")), ("green", s("#0f0"))])),
        ("fontSize".to_string(), n("14")),
        ("shellArgs".to_string(), arr(vec![s("--login")])),
    ];
    let patch = vec![
        ("colors".to_string(), obj(vec![("green", s("#1f1"))])),
        ("shellArgs".to_string(), arr(vec![s("-i")])),
        ("bellSound".to_string(), Json::Null),
    ];
    merge_shallow(&mut acc, &patch);
    let doc = Json::Object(acc);
    assert_eq!(get_path(&doc, &["colors", "red"]), Some(&s("#f00")));
    assert_eq!(get_path(&doc, &["colors", "green"]), Some(&s("#1f1")));
    assert_eq!(member(&doc, "fontSize"), &n("14"));
    assert_eq!(member(&doc, "shellArgs"), &arr(vec![s("-i")]));
    assert_eq!(member(&doc, "bellSound"), &Json::Null);
}

#[test]
fn root_validation() {
    assert!(validate_root(&obj(vec![])).is_ok());
    assert!(validate_root(&obj(vec![("config", Json::Null)])).is_ok());
    assert!(validate_root(&obj(vec![("config", obj(vec![]))])).is_ok());
    assert_eq!(
        validate_root(&obj(vec![("config", n("1"))])),
        Err("`config` must be a JSON object.".to_string())
    );
    assert_eq!(
        validate_root(&arr(vec![])),
        Err("Configuration root must be a JSON object.".to_string())
    );
}

#[test]
fn copies_are_equal() {
    let doc = obj(vec![("a", arr(vec![n("1"), obj(vec![("b", s("c"))])]))]);
    assert_eq!(doc.copy(), doc);
}
