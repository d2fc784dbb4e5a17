use tracing_prism::json::{val_to_string, Json, JsonNumber};
use tracing_prism::json_entry::{JsonEntry, JsonError, LogLevel};
use tracing_prism::entry::Entry;
use tracing_prism::control::Control;
use tracing_prism::filter::Filter;

const LINE: &str = r#"{"timestamp":"Feb 08 20:06:03.705","level":"INFO","target":"async_std::task::builder","fields":{"message":"spawn","log.target":"async_std::task::builder","log.module_path":"async_std::task::builder","log.file":"/src/task/builder.rs","log.line":41},"spans":[{"name":"outer","id":1},{"name":"inner"}]}"#;

fn text(s: &str) -> Json {
    Json::Text(s.to_string())
}

fn obj(members: Vec<(&str, Json)>) -> Json {
    Json::Object(members.into_iter().map(|(k, v)| (k.to_string(), v)).collect())
}

fn show(v: &Json) -> String {
    let mut s = String::new();
    val_to_string(v, &mut s);
    s
}

#[test]
fn record_fields_are_flattened_and_cleaned() {
    let e = JsonEntry::new(LINE.to_string()).ok().unwrap();
    assert_eq!(e.lvl(), LogLevel::Info);
    assert_eq!(e.msg, " ~ spawn");
    assert_eq!(e.target, "async_std::task::builder");
    assert_eq!(e.span, "outer={ id=1 } ⊶ inner");
    assert!(e.value_txt.is_none());
    assert_eq!(e.text, LINE);
    let keys = e.keys();
    assert_eq!(keys, vec!["log.file".to_string(), "timestamp".to_string()]);
    assert_eq!(show(e.get("log.file").unwrap()), "/src/task/builder.rs:41");
    assert!(e.get("level").is_none());
    assert!(e.get("message").is_none());
    assert!(e.get("fields").is_none());
    assert!(e.get("log.line").is_none());
}

#[test]
fn not_json_is_an_error() {
    let err: JsonError = JsonEntry::new("INFO plain text".to_string()).err().unwrap();
    assert!(err.source.is_syntax());
    assert_eq!(err.source.line(), 1);
}

#[test]
fn levels_of_records() {
    for (lvl, want) in [("TRACE", LogLevel::Trace), ("DEBUG", LogLevel::Debug), ("WARN", LogLevel::Warn), ("ERROR", LogLevel::Error), ("info", LogLevel::Unknown)] {
        let line = format!(r#"{{"level":"{}","target":"t","fields":{{"message":"m"}}}}"#, lvl);
        let e = JsonEntry::new(line).ok().unwrap();
        assert_eq!(e.lvl(), want);
    }
}

#[test]
fn missing_spans_give_empty_span() {
    let e = JsonEntry::new(r#"{"message":"m","target":"t"}"#.to_string()).ok().unwrap();
    assert_eq!(e.span, "");
    assert_eq!(e.msg, " ~ m");
    assert!(e.keys().is_empty());
}

#[test]
fn val_to_string_formats() {
    assert_eq!(show(&Json::Null), "null");
    assert_eq!(show(&Json::Bool(true)), "true");
    assert_eq!(show(&Json::Bool(false)), "false");
    assert_eq!(show(&Json::Number(JsonNumber { text: "4.5".to_string(), as_u64: None })), "4.5");
    assert_eq!(show(&text("x y")), "x y");
    assert_eq!(show(&Json::Array(vec![])), "");
    assert_eq!(show(&Json::Array(vec![text("a"), Json::Null, Json::Bool(false)])), "[ a, null, false ]");
    assert_eq!(show(&obj(vec![])), "");
    assert_eq!(show(&obj(vec![("a", text("1")), ("r#type", text("2"))])), "{ a=1, type=2 }");
    assert_eq!(show(&obj(vec![("name", text("span"))])), "span");
    assert_eq!(show(&obj(vec![("id", text("3")), ("name", text("span"))])), "span={ id=3 }");
    // the name is skipped wherever it is, and no separator comes before the first printed member
    assert_eq!(show(&obj(vec![("name", text("n")), ("x", text("1"))])), "n={ x=1 }");
    assert_eq!(show(&obj(vec![("a", text("1")), ("name", text("n")), ("x", text("2"))])), "n={ a=1, x=2 }");
    assert_eq!(show(&obj(vec![("k", Json::Array(vec![obj(vec![("z", Json::Null)])]))])), "{ k=[ { z=null } ] }");
}

#[test]
fn try_json_accepts_only_records() {
    let good = format!("{}\n{}\n", LINE, r#"{"message":"m","target":"t"}"#);
    let es = Control::try_json(&good).ok().unwrap();
    assert_eq!(es.len(), 2);
    assert!(matches!(es[0], Entry::Json(_)));
    assert!(Control::try_json("plain line").is_err());
    // JSON, but not a record: no message
    assert!(Control::try_json(r#"{"target":"t"}"#).is_err());
    // JSON, but not an object
    assert!(Control::try_json("5").is_err());
    // a negative line number
    assert!(Control::try_json(r#"{"message":"m","target":"t","log.line":-1}"#).is_err());
    // no lines at all
    assert_eq!(Control::try_json("").ok().unwrap().len(), 0);
}

#[test]
fn json_matches_regex_on_whole_line() {
    let mut e = JsonEntry::new(LINE.to_string()).ok().unwrap();
    let mut f = Filter::new(1);
    f.regex = Filter::compile("builder.rs", false, true).ok();
    assert!(e.matches(&f));
    f.regex = Filter::compile("nothere", false, true).ok();
    assert!(!e.matches(&f));
    f.regex = None;
    f.info = false;
    assert!(!e.matches(&f));
}

#[test]
fn json_html_structure() {
    let e = JsonEntry::new(LINE.to_string()).ok().unwrap();
    assert!(e.resolves_keys());
    let div = e.html();
    assert_eq!(div.tag, "div");
    assert_eq!(div.classes, vec!["entry".to_string(), "info".to_string()]);
    assert_eq!(div.attributes, vec![("data-time".to_string(), "Feb 08 20:06:03.705".to_string())]);
    assert_eq!(div.children.len(), 2);
    let p = &div.children[0];
    assert_eq!(p.tag, "p");
    assert_eq!(p.children[0].text.as_deref(), Some("async_std::task::builder"));
    assert_eq!(p.children[1].text.as_deref(), Some(" ~ spawn"));
    assert_eq!(p.children[2].text.as_deref(), Some("outer={ id=1 } ⊶ inner"));
    let table = &div.children[1];
    assert_eq!(table.classes, vec!["info".to_string(), "display_none".to_string()]);
    // colgroup, then one row per key
    assert_eq!(table.children.len(), 3);
    let row = &table.children[1];
    assert_eq!(row.children[0].text.as_deref(), Some("log.file"));
    assert_eq!(row.children[1].text.as_deref(), Some(": "));
    assert_eq!(row.children[2].text.as_deref(), Some("/src/task/builder.rs:41"));
}

#[test]
fn padded_keys_do_not_resolve() {
    let e = JsonEntry::new(r#"{"message":"m","target":"t"," pad":1}"#.to_string()).ok().unwrap();
    assert_eq!(e.keys(), vec!["pad".to_string()]);
    assert!(!e.resolves_keys());
}

#[test]
fn keys_are_sorted_and_unique() {
    let e = JsonEntry::new(r#"{"message":"m","target":"t","zeta":1,"alpha":2," alpha":3}"#.to_string()).ok().unwrap();
    assert_eq!(e.keys(), vec!["alpha".to_string(), "zeta".to_string()]);
}

#[test]
fn flattened_fields_take_their_place_in_key_order() {
    let e = JsonEntry::new(r#"{"message":"m","target":"t","zeta":1,"alpha":2,"fields":{"mid":3,"zeta":4}}"#.to_string()).ok().unwrap();
    let keys: Vec<String> = match &e.value {
        Json::Object(o) => o.iter().map(|(k, _)| k.clone()).collect(),
        _ => vec![],
    };
    assert_eq!(keys, vec!["alpha".to_string(), "mid".to_string(), "zeta".to_string()]);
    assert_eq!(show(e.get("zeta").unwrap()), "4");
}
