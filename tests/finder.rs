use serde_json::Value;
use translate_finder::finder::TranslateFinder;
use translate_finder::key_path::{parse_index, read_json_path};
use translate_finder::plan::{plan_file, FileOutcome};

fn json(text: &str) -> Value {
    serde_json::from_str(text).unwrap()
}

fn finder(text: &str) -> TranslateFinder {
    TranslateFinder::new(json(text))
}

#[test]
fn translate_finder_finds_translates() {
    let translate_finder = finder(r#"{"my_custom_string": "hello, world"}"#);

    assert!(translate_finder.is_match("                   {{ 'my_custom_string' | translate}}"));
    assert!(translate_finder.is_match("{{'my_custom_string'|translate}}"));
    assert!(translate_finder.is_match("{{ 'my_custom_string' | translate}}"));
}

#[test]
fn translate_finder_finds_right_groups() {
    let translate_finder = finder(r#"{"my_custom_string": "hello, world"}"#);
    let replacement =
        translate_finder.replace_with_string("                   {{ 'my_custom_string' | translate}}");
    assert!(replacement.is_some());
    assert_eq!(replacement.unwrap(), String::from("                   hello, world"));
}

#[test]
fn can_read_value_by_json_path() {
    let json_payload = json(
        r#"{
            "snagHeader": "Test",
            "array": [
                { "name": "Embedded 0" },
                { "name": "Embedded 1" }
            ]
        }"#,
    );
    let json_path = "array.0.name";

    let u = read_json_path(&json_payload, json_path);
    assert_eq!(u.unwrap().as_str().unwrap(), "Embedded 0");
}

#[test]
fn greeting_end_to_end() {
    let f = finder(r#"{"greeting":"hello, world"}"#);
    assert_eq!(
        f.replace_with_string("  {{ 'greeting' | translate}}"),
        Some(String::from("  hello, world"))
    );
}

#[test]
fn object_value_is_left_as_written() {
    let f = finder(r#"{"obj":{"a":1}}"#);
    assert!(f.is_match("'obj' | translate"));
    assert_eq!(f.replace_with_string("'obj' | translate"), None);
}

#[test]
fn missing_key_in_empty_dictionary() {
    let f = finder("{}");
    assert_eq!(f.replace_with_string("'missing.key' | translate"), None);
}

#[test]
fn number_bool_and_null_values_are_not_strings() {
    let f = finder(r#"{"n": 3, "b": true, "z": null, "arr": ["x"]}"#);
    assert_eq!(f.replace_with_string("'n' | translate"), None);
    assert_eq!(f.replace_with_string("'b' | translate"), None);
    assert_eq!(f.replace_with_string("'z' | translate"), None);
    assert_eq!(f.replace_with_string("'arr' | translate"), None);
}

#[test]
fn one_resolved_one_kept() {
    let f = finder(r#"{"a":"AAA"}"#);
    assert_eq!(
        f.replace_with_string("'a' | translate 'b' | translate"),
        Some(String::from("AAA 'b' | translate"))
    );
}

#[test]
fn unresolved_text_twice_is_unchanged() {
    let f = finder(r#"{"a":"AAA"}"#);
    let text = "x {{ 'nope' | translate }} y";
    assert_eq!(f.replace_with_string(text), None);
    assert_eq!(f.replace_with_string(text), None);
}

#[test]
fn resolved_text_then_no_further_change() {
    let f = finder(r#"{"a":"AAA"}"#);
    let once = f.replace_with_string("<p>{{ 'a' | translate }}</p>").unwrap();
    assert_eq!(once, "<p>AAA</p>");
    assert!(!f.is_match(&once));
    assert_eq!(f.replace_with_string(&once), None);
}

#[test]
fn text_without_placeholders() {
    let f = finder(r#"{"a":"AAA"}"#);
    assert!(!f.is_match(""));
    assert_eq!(f.replace_with_string(""), None);
    assert!(!f.is_match("no placeholders | here"));
    assert_eq!(f.replace_with_string("no placeholders | here"), None);
    assert!(!f.is_match("'a' | translat"));
    assert!(!f.is_match("'' | translate"));
}

#[test]
fn double_quotes_and_spacing() {
    let f = finder(r#"{"a":"AAA"}"#);
    assert_eq!(f.replace_with_string("\"a\"|translate"), Some(String::from("AAA")));
    assert_eq!(f.replace_with_string("\"a\" |translate!"), Some(String::from("AAA!")));
    assert_eq!(f.replace_with_string("'a'| translate."), Some(String::from("AAA.")));
    // two spaces before the pipe are not part of the grammar
    assert!(!f.is_match("'a'  | translate"));
}

#[test]
fn key_runs_to_the_last_quote_before_the_pipe() {
    let f = finder(r#"{"a' 'b":"X", "b":"Y"}"#);
    assert_eq!(f.replace_with_string("'a' 'b' | translate"), Some(String::from("X")));
}

#[test]
fn several_placeholders_replaced_left_to_right() {
    let f = finder(r#"{"a":"1","b":{"c":"2"}}"#);
    assert_eq!(
        f.replace_with_string("['a' | translate, 'b.c' | translate]"),
        Some(String::from("[1, 2]"))
    );
}

#[test]
fn nested_and_array_paths() {
    let d = json(r#"{"list":[{"name":"zero"},{"name":"one"}],"0":"field zero","obj":{"k":"v"}}"#);
    assert_eq!(read_json_path(&d, "list.1.name").unwrap().as_str(), Some("one"));
    assert_eq!(read_json_path(&d, "list.+1.name").unwrap().as_str(), Some("one"));
    assert_eq!(read_json_path(&d, "list.2.name").unwrap(), Value::Null);
    assert_eq!(read_json_path(&d, "obj.k").unwrap().as_str(), Some("v"));
    assert_eq!(read_json_path(&d, "obj.k.deeper").unwrap(), Value::Null);
    assert_eq!(read_json_path(&d, "missing.k").unwrap(), Value::Null);
    // a numeric first segment indexes the root as an array, so an object misses
    assert_eq!(read_json_path(&d, "0").unwrap(), Value::Null);
    assert_eq!(read_json_path(&d, "obj.").unwrap(), Value::Null);
    assert_eq!(read_json_path(&d, "obj").unwrap(), json(r#"{"k":"v"}"#));
}

#[test]
fn root_array_indexing() {
    let d = json(r#"["first", {"x": "second"}]"#);
    assert_eq!(read_json_path(&d, "0").unwrap().as_str(), Some("first"));
    assert_eq!(read_json_path(&d, "1.x").unwrap().as_str(), Some("second"));
    let f = TranslateFinder::new(d);
    assert_eq!(f.replace_with_string("'1.x' | translate"), Some(String::from("second")));
}

#[test]
fn index_parsing() {
    assert_eq!(parse_index("0"), Some(0));
    assert_eq!(parse_index("42"), Some(42));
    assert_eq!(parse_index("+7"), Some(7));
    assert_eq!(parse_index("007"), Some(7));
    assert_eq!(parse_index(""), None);
    assert_eq!(parse_index("+"), None);
    assert_eq!(parse_index("-1"), None);
    assert_eq!(parse_index("1a"), None);
    assert_eq!(parse_index("name"), None);
    assert_eq!(parse_index("18446744073709551615"), Some(usize::MAX));
    assert_eq!(parse_index("18446744073709551616"), None);
    assert_eq!(parse_index("99999999999999999999x"), None);
}

#[test]
fn dictionary_from_text() {
    let f = TranslateFinder::parse_dictionary(r#"{"k":"v"}"#).unwrap();
    assert_eq!(f.replace_with_string("'k' | translate"), Some(String::from("v")));
    assert!(TranslateFinder::parse_dictionary("{not json").is_none());
}

#[test]
fn plan_for_several_dictionaries() {
    let dicts = vec![
        finder(r#"{"a":"first"}"#),
        finder(r#"{"b":"second"}"#),
        finder(r#"{"a":"third"}"#),
    ];
    let plan = plan_file(&dicts, "'a' | translate");
    assert_eq!(plan.len(), 3);
    assert!(matches!(&plan[0], FileOutcome::Rewrite(s) if s == "first"));
    assert!(matches!(&plan[1], FileOutcome::NoTranslations));
    assert!(matches!(&plan[2], FileOutcome::Rewrite(s) if s == "third"));
}

#[test]
fn plan_without_placeholders_is_empty() {
    let dicts = vec![finder(r#"{"a":"first"}"#)];
    assert!(plan_file(&dicts, "plain text").is_empty());
    assert!(plan_file(&Vec::new(), "'a' | translate").is_empty());
}

#[test]
fn non_ascii_text_is_kept() {
    let f = finder(r#"{"grüß":"héllo ✓"}"#);
    assert_eq!(
        f.replace_with_string("« 'grüß' | translate » ✓"),
        Some(String::from("« héllo ✓ » ✓"))
    );
}

#[test]
fn braces_belong_to_the_placeholder() {
    let f = finder(r#"{"a":"AAA"}"#);
    assert_eq!(f.replace_with_string("{{'a'|translate}}"), Some(String::from("AAA")));
    assert_eq!(f.replace_with_string("x{{   'a' | translate   }}y"), Some(String::from("xAAAy")));
    assert_eq!(f.replace_with_string("{{{ 'a' | translate }}}"), Some(String::from("{AAA}")));
    // without closing braces only the bare placeholder is replaced
    assert_eq!(f.replace_with_string("{{ 'a' | translate"), Some(String::from("{{ AAA")));
    assert_eq!(f.replace_with_string("{{ 'a' | translate }"), Some(String::from("{{ AAA }")));
    // an unresolved placeholder keeps its braces
    assert_eq!(
        f.replace_with_string("{{ 'a' | translate }} {{ 'b' | translate }}"),
        Some(String::from("AAA {{ 'b' | translate }}"))
    );
}
