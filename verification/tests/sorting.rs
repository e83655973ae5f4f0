use serde_json::Value;
use tidy_json::json::Json;
use tidy_json::random::RandomSource;
use tidy_json::sort::{sort, sort_with};
use tidy_json::SortOrder;

fn from_value(value: &Value) -> Json {
    match value {
        Value::Null => Json::Null,
        Value::Bool(b) => Json::Bool(*b),
        Value::Number(n) => Json::Number(n.to_string()),
        Value::String(s) => Json::String(s.clone()),
        Value::Array(items) => Json::Array(items.iter().map(from_value).collect()),
        Value::Object(map) => {
            Json::Object(map.iter().map(|(key, value)| (key.clone(), from_value(value))).collect())
        }
    }
}

fn to_value(json: &Json) -> Value {
    match json {
        Json::Null => Value::Null,
        Json::Bool(b) => Value::Bool(*b),
        Json::Number(text) => Value::Number(text.parse().unwrap()),
        Json::String(s) => Value::String(s.clone()),
        Json::Array(items) => Value::Array(items.iter().map(to_value).collect()),
        Json::Object(entries) => Value::Object(
            entries.iter().map(|(key, value)| (key.clone(), to_value(value))).collect(),
        ),
    }
}

fn parse(text: &str) -> Json {
    let value: Value = serde_json::from_str(text).unwrap();
    from_value(&value)
}

fn print(json: &Json) -> String {
    serde_json::to_string(&to_value(json)).unwrap()
}

fn keys(json: &Json) -> Vec<String> {
    match json {
        Json::Object(entries) => entries.iter().map(|(key, _)| key.clone()).collect(),
        _ => panic!("no object"),
    }
}

fn sorted_keys(json: &Json) -> Vec<String> {
    let mut all = keys(json);
    all.sort();
    all
}

#[test]
fn should_apply_uniform_indent() {
    let data = r#"
        {
            "c": 3,
         "b": 2,
              "a": 1
        }"#;

    let json = parse(data);
    let sorted_json = sort(&json, &SortOrder::AlphabeticalAsc, 0, None);
    assert_eq!(print(&sorted_json), r#"{"a":1,"b":2,"c":3}"#);
}

#[test]
fn test_sort_json_simple() {
    let data = r#"
        {
            "c": 3,
            "b": 2,
            "a": 1
        }"#;

    let json = parse(data);
    let sorted_obj = sort(&json, &SortOrder::AlphabeticalAsc, 0, None);
    assert_eq!(print(&sorted_obj), r#"{"a":1,"b":2,"c":3}"#);
    assert_eq!(sorted_obj, parse(r#"{"a":1,"b":2,"c":3}"#));
}

#[test]
fn test_sort_json_nested() {
    let data = r#"
        {
            "c": {
                "b": 4,
                "a": 3
            },
            "b": 2,
            "a": 1
        }"#;

    let json = parse(data);
    let sorted_obj = sort(&json, &SortOrder::AlphabeticalAsc, 0, None);
    assert_eq!(print(&sorted_obj), r#"{"a":1,"b":2,"c":{"a":3,"b":4}}"#);
}

#[test]
fn test_sort_json_preserve_array() {
    let data = r#"
        {
            "c": [4, 3],
            "b": 2,
            "a": 1
        }"#;
    let json = parse(data);
    let sorted_obj = sort(&json, &SortOrder::AlphabeticalAsc, 0, None);
    assert_eq!(print(&sorted_obj), r#"{"a":1,"b":2,"c":[4,3]}"#);
}

#[test]
fn test_sort_json_reverse_simple() {
    let data = r#"
        {
            "a": 3,
            "b": 2,
            "c": 1
        }"#;
    let json = parse(data);
    let sorted_obj = sort(&json, &SortOrder::AlphabeticalDesc, 0, None);
    assert_eq!(print(&sorted_obj), r#"{"c":1,"b":2,"a":3}"#);
}

#[test]
fn test_sort_json_array_of_objects() {
    let data = r#"
        {
            "c": [
                {
                    "e": 5,
                    "d": 4
                },
                {
                    "g": 7,
                    "f": 6
                }
            ],
            "b": 2,
            "a": 1
        }"#;
    let json = parse(data);
    let sorted_obj = sort(&json, &SortOrder::AlphabeticalAsc, 0, None);
    assert_eq!(print(&sorted_obj), r#"{"a":1,"b":2,"c":[{"d":4,"e":5},{"f":6,"g":7}]}"#);
}

const TWO_LEVELS: &str = r#"
{
    "c": 3,
    "b": {
        "c": 1,
        "b": 5,
        "a": 2
    },
    "a": 1
}"#;

#[test]
fn test_sorts_correctly_without_depth_arg() {
    let sorted = sort(&parse(TWO_LEVELS), &SortOrder::AlphabeticalAsc, 0, None);
    assert_eq!(print(&sorted), r#"{"a":1,"b":{"a":2,"b":5,"c":1},"c":3}"#);
}

#[test]
fn test_sorts_correctly_with_depth_arg() {
    let sorted = sort(&parse(TWO_LEVELS), &SortOrder::AlphabeticalAsc, 0, Some(1));
    assert_eq!(print(&sorted), r#"{"a":1,"b":{"c":1,"b":5,"a":2},"c":3}"#);
}

#[test]
fn test_does_not_affect_spaces_in_values() {
    let json = parse(
        r#"
    {
        "b": "foo",
        "a": "1 2  3",
        "c": 3
    }
    "#,
    );
    let sorted = sort(&json, &SortOrder::AlphabeticalAsc, 0, None);
    assert_eq!(print(&sorted), r#"{"a":"1 2  3","b":"foo","c":3}"#);
}

#[test]
fn descending_keeps_a_descending_document() {
    let json = parse(r#"{"c":3,"b":2,"a":1}"#);
    let sorted = sort(&json, &SortOrder::AlphabeticalDesc, 0, None);
    assert_eq!(print(&sorted), r#"{"c":3,"b":2,"a":1}"#);
    let sorted = sort(&json, &SortOrder::AlphabeticalAsc, 0, None);
    assert_eq!(print(&sorted), r#"{"a":1,"b":2,"c":3}"#);
}

#[test]
fn depth_zero_changes_nothing() {
    let json = parse(TWO_LEVELS);
    let sorted = sort(&json, &SortOrder::AlphabeticalAsc, 0, Some(0));
    assert_eq!(sorted, json);
    assert_eq!(print(&sorted), r#"{"c":3,"b":{"c":1,"b":5,"a":2},"a":1}"#);
}

#[test]
fn depth_at_or_beyond_the_bound_changes_nothing() {
    let json = parse(TWO_LEVELS);
    assert_eq!(sort(&json, &SortOrder::AlphabeticalAsc, 1, Some(1)), json);
    assert_eq!(sort(&json, &SortOrder::AlphabeticalAsc, 7, Some(3)), json);
    assert_eq!(sort(&json, &SortOrder::AlphabeticalAsc, u32::MAX, Some(u32::MAX)), json);
}

#[test]
fn depth_counts_from_the_given_depth() {
    let json = parse(TWO_LEVELS);
    let sorted = sort(&json, &SortOrder::AlphabeticalAsc, 2, Some(3));
    assert_eq!(print(&sorted), r#"{"a":1,"b":{"c":1,"b":5,"a":2},"c":3}"#);
    let sorted = sort(&json, &SortOrder::AlphabeticalAsc, u32::MAX, None);
    assert_eq!(print(&sorted), r#"{"a":1,"b":{"a":2,"b":5,"c":1},"c":3}"#);
}

#[test]
fn arrays_do_not_use_up_depth() {
    let json = parse(r#"{"z":[[{"b":1,"a":{"d":1,"c":2}}]],"y":0}"#);
    let sorted = sort(&json, &SortOrder::AlphabeticalAsc, 0, Some(2));
    assert_eq!(print(&sorted), r#"{"y":0,"z":[[{"a":{"d":1,"c":2},"b":1}]]}"#);
    let sorted = sort(&json, &SortOrder::AlphabeticalAsc, 0, Some(1));
    assert_eq!(print(&sorted), r#"{"y":0,"z":[[{"b":1,"a":{"d":1,"c":2}}]]}"#);
}

#[test]
fn top_level_array_is_sorted_inside() {
    let json = parse(r#"[{"b":1,"a":2},3,"x",null,true,[{"d":1,"c":2}]]"#);
    let sorted = sort(&json, &SortOrder::AlphabeticalAsc, 0, None);
    assert_eq!(print(&sorted), r#"[{"a":2,"b":1},3,"x",null,true,[{"c":2,"d":1}]]"#);
}

#[test]
fn scalars_come_back_unchanged() {
    for text in ["null", "true", "false", "12", "-0.5e10", "\"b a\"", "[]", "{}"] {
        let json = parse(text);
        assert_eq!(sort(&json, &SortOrder::AlphabeticalDesc, 0, None), json);
    }
}

#[test]
fn numbers_keep_their_text() {
    let json = Json::Object(vec![
        ("b".to_string(), Json::Number("1.0".to_string())),
        ("a".to_string(), Json::Number("123456789012345678901234567890".to_string())),
    ]);
    let sorted = sort(&json, &SortOrder::AlphabeticalAsc, 0, None);
    assert_eq!(
        sorted,
        Json::Object(vec![
            ("a".to_string(), Json::Number("123456789012345678901234567890".to_string())),
            ("b".to_string(), Json::Number("1.0".to_string())),
        ])
    );
}

#[test]
fn key_length_ascending_breaks_ties_alphabetically() {
    let json = parse(r#"{"cc":1,"bbb":2,"a":3,"ab":4,"aaa":5,"b":6}"#);
    let sorted = sort(&json, &SortOrder::KeyLengthAsc, 0, None);
    assert_eq!(print(&sorted), r#"{"a":3,"b":6,"ab":4,"cc":1,"aaa":5,"bbb":2}"#);
}

#[test]
fn key_length_descending_breaks_ties_alphabetically() {
    let json = parse(r#"{"cc":1,"bbb":2,"a":3,"ab":4,"aaa":5,"b":6}"#);
    let sorted = sort(&json, &SortOrder::KeyLengthDesc, 0, None);
    assert_eq!(print(&sorted), r#"{"aaa":5,"bbb":2,"ab":4,"cc":1,"a":3,"b":6}"#);
}

#[test]
fn key_length_counts_characters() {
    let json = parse(r#"{"abc":1,"éé":2,"z":3}"#);
    let sorted = sort(&json, &SortOrder::KeyLengthAsc, 0, None);
    assert_eq!(keys(&sorted), vec!["z", "éé", "abc"]);
}

#[test]
fn keys_are_compared_by_code_point() {
    let json = parse(r#"{"b":1,"a":2,"B":3,"é":4,"":5,"ab":6,"a b":7,"10":8,"9":9}"#);
    let sorted = sort(&json, &SortOrder::AlphabeticalAsc, 0, None);
    assert_eq!(keys(&sorted), vec!["", "10", "9", "B", "a", "a b", "ab", "b", "é"]);
    let sorted = sort(&json, &SortOrder::AlphabeticalDesc, 0, None);
    assert_eq!(keys(&sorted), vec!["é", "b", "ab", "a b", "a", "B", "9", "10", ""]);
}

#[test]
fn equal_keys_keep_their_order() {
    let json = Json::Object(vec![
        ("b".to_string(), Json::Number("1".to_string())),
        ("a".to_string(), Json::Number("2".to_string())),
        ("b".to_string(), Json::Number("3".to_string())),
        ("a".to_string(), Json::Number("4".to_string())),
    ]);
    let sorted = sort(&json, &SortOrder::AlphabeticalDesc, 0, None);
    assert_eq!(
        sorted,
        Json::Object(vec![
            ("b".to_string(), Json::Number("1".to_string())),
            ("b".to_string(), Json::Number("3".to_string())),
            ("a".to_string(), Json::Number("2".to_string())),
            ("a".to_string(), Json::Number("4".to_string())),
        ])
    );
}

#[test]
fn sorting_twice_is_sorting_once() {
    let json = parse(r#"{"q":{"z":[{"k":1,"j":{"b":0,"a":0}}],"y":1},"bb":2,"a":3,"ccc":{"b":1,"a":2}}"#);
    for order in [
        SortOrder::AlphabeticalAsc,
        SortOrder::AlphabeticalDesc,
        SortOrder::KeyLengthAsc,
        SortOrder::KeyLengthDesc,
    ] {
        for bound in [None, Some(0), Some(1), Some(2), Some(3)] {
            let once = sort(&json, &order, 0, bound);
            let twice = sort(&once, &order, 0, bound);
            assert_eq!(twice, once);
        }
    }
}

#[test]
fn sorting_keeps_the_keys() {
    let json = parse(r#"{"q":1,"bb":{"y":1,"x":2},"a":3,"ccc":4,"":5}"#);
    for order in [
        SortOrder::AlphabeticalAsc,
        SortOrder::AlphabeticalDesc,
        SortOrder::KeyLengthAsc,
        SortOrder::KeyLengthDesc,
        SortOrder::Random,
    ] {
        let sorted = sort(&json, &order, 0, None);
        assert_eq!(sorted_keys(&sorted), vec!["", "a", "bb", "ccc", "q"]);
        match &sorted {
            Json::Object(entries) => {
                let inner = &entries.iter().find(|(key, _)| key == "bb").unwrap().1;
                assert_eq!(sorted_keys(inner), vec!["x", "y"]);
            }
            _ => panic!("no object"),
        }
    }
}

#[test]
fn large_object_is_sorted() {
    let count = 1000;
    let entries: Vec<(String, Json)> = (0..count)
        .map(|i| (format!("key_{:05}", (i * 7919) % count), Json::Number(i.to_string())))
        .collect();
    let json = Json::Object(entries);
    let sorted = sort(&json, &SortOrder::AlphabeticalAsc, 0, None);
    let expected: Vec<String> = (0..count).map(|i| format!("key_{:05}", i)).collect();
    assert_eq!(keys(&sorted), expected);
    let sorted = sort(&json, &SortOrder::AlphabeticalDesc, 0, None);
    let expected: Vec<String> = (0..count).rev().map(|i| format!("key_{:05}", i)).collect();
    assert_eq!(keys(&sorted), expected);
}

#[test]
fn random_keeps_every_key_with_its_value() {
    let json = parse(r#"{"e":{"z":1,"y":2,"x":3},"d":[{"b":1,"a":2}],"c":3,"b":2,"a":1}"#);
    let mut source = RandomSource::seeded(7);
    for _ in 0..20 {
        let shuffled = sort_with(&json, &SortOrder::Random, 0, None, &mut source);
        assert_eq!(sorted_keys(&shuffled), vec!["a", "b", "c", "d", "e"]);
        let back = sort(&shuffled, &SortOrder::AlphabeticalAsc, 0, None);
        assert_eq!(back, sort(&json, &SortOrder::AlphabeticalAsc, 0, None));
    }
}

#[test]
fn random_from_the_operating_system_keeps_the_keys() {
    let json = parse(r#"{"e":5,"d":4,"c":3,"b":2,"a":1}"#);
    let shuffled = sort(&json, &SortOrder::Random, 0, None);
    assert_eq!(sorted_keys(&shuffled), vec!["a", "b", "c", "d", "e"]);
    assert_eq!(sort(&shuffled, &SortOrder::AlphabeticalDesc, 0, None), json);
}

#[test]
fn random_shuffles() {
    let entries: Vec<(String, Json)> =
        (0..64).map(|i| (format!("k{:02}", i), Json::Null)).collect();
    let json = Json::Object(entries);
    let mut source = RandomSource::seeded(1);
    let shuffled = sort_with(&json, &SortOrder::Random, 0, None, &mut source);
    assert_ne!(shuffled, json);
    assert_eq!(sorted_keys(&shuffled), keys(&json));
}

#[test]
fn random_repeats_for_the_same_seed() {
    let entries: Vec<(String, Json)> =
        (0..64).map(|i| (format!("k{:02}", i), Json::Null)).collect();
    let json = Json::Object(entries);
    let first = sort_with(&json, &SortOrder::Random, 0, None, &mut RandomSource::seeded(42));
    let second = sort_with(&json, &SortOrder::Random, 0, None, &mut RandomSource::seeded(42));
    assert_eq!(first, second);
}

#[test]
fn random_stops_at_the_bound() {
    let json = parse(r#"{"b":{"z":1,"y":2,"x":3,"w":4,"v":5,"u":6,"t":7,"s":8},"a":1}"#);
    let mut source = RandomSource::seeded(3);
    for _ in 0..20 {
        let shuffled = sort_with(&json, &SortOrder::Random, 0, Some(1), &mut source);
        match &shuffled {
            Json::Object(entries) => {
                let inner = &entries.iter().find(|(key, _)| key == "b").unwrap().1;
                assert_eq!(print(inner), r#"{"z":1,"y":2,"x":3,"w":4,"v":5,"u":6,"t":7,"s":8}"#);
            }
            _ => panic!("no object"),
        }
    }
    assert_eq!(sort_with(&json, &SortOrder::Random, 0, Some(0), &mut source), json);
}

#[test]
fn copy_and_clone_give_the_same_tree() {
    let json = parse(TWO_LEVELS);
    assert_eq!(json.copy(), json);
    assert_eq!(json.clone(), json);
}
