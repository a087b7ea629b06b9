use solstice::config::{flatten_json, min_lines_default, Config, JsonValue};

fn obj(entries: Vec<(&str, JsonValue)>) -> JsonValue {
    JsonValue::Object(entries.into_iter().map(|(k, v)| (k.to_string(), v)).collect())
}

fn members(v: JsonValue) -> Vec<(String, String)> {
    match v {
        JsonValue::Object(entries) => entries
            .into_iter()
            .map(|(k, v)| {
                let text = match v {
                    JsonValue::Null => "null".to_string(),
                    JsonValue::Bool(b) => b.to_string(),
                    JsonValue::Number(n) => n,
                    JsonValue::Str(s) => format!("{:?}", s),
                    JsonValue::Array(a) => format!("[{}]", a.len()),
                    JsonValue::Object(_) => "object".to_string(),
                };
                (k, text)
            })
            .collect(),
        _ => panic!("not an object"),
    }
}

#[test]
fn nested_settings_are_flattened() {
    let value = obj(vec![(
        "inlayHints",
        obj(vec![(
            "closingBraceHints",
            obj(vec![
                ("enable", JsonValue::Bool(true)),
                ("minLines", JsonValue::Number("5".to_string())),
            ]),
        )]),
    )]);
    let mut flat = members(flatten_json(value));
    flat.sort();
    assert_eq!(
        flat,
        vec![
            (
                "inlayHints_closingBraceHints_enable".to_string(),
                "true".to_string()
            ),
            (
                "inlayHints_closingBraceHints_minLines".to_string(),
                "5".to_string()
            ),
        ]
    );
}

#[test]
fn non_objects_are_unchanged() {
    assert!(matches!(flatten_json(JsonValue::Null), JsonValue::Null));
    assert!(matches!(flatten_json(JsonValue::Bool(false)), JsonValue::Bool(false)));
    match flatten_json(JsonValue::Array(vec![obj(vec![("a", obj(vec![]))])])) {
        JsonValue::Array(items) => assert_eq!(items.len(), 1),
        _ => panic!("array changed"),
    }
}

#[test]
fn empty_nested_object_disappears() {
    let flat = members(flatten_json(obj(vec![
        ("a", obj(vec![])),
        ("b", JsonValue::Null),
    ])));
    assert_eq!(flat, vec![("b".to_string(), "null".to_string())]);
}

#[test]
fn later_member_wins_on_a_clash() {
    let flat = members(flatten_json(obj(vec![
        ("a", obj(vec![("b", JsonValue::Number("1".to_string()))])),
        ("a_b", JsonValue::Number("2".to_string())),
    ])));
    assert_eq!(flat, vec![("a_b".to_string(), "2".to_string())]);
}

#[test]
fn arrays_inside_objects_are_kept() {
    let flat = members(flatten_json(obj(vec![(
        "x",
        obj(vec![("list", JsonValue::Array(vec![JsonValue::Null, JsonValue::Null]))]),
    )])));
    assert_eq!(flat, vec![("x_list".to_string(), "[2]".to_string())]);
}

#[test]
fn defaults() {
    assert_eq!(min_lines_default(), 25);
    let config = Config::default();
    assert!(!config.inlayHints_closingBraceHints_enable);
    assert_eq!(config.inlayHints_closingBraceHints_minLines, 0);
}
