use tidy_json::config::{Configuration, IndentStyle};
use tidy_json::files::{SelectionError, WalkEntry};
use tidy_json::json::Json;
use tidy_json::pipeline::{
    hint_for, prepare, rewrite, summarize, FileOutcome, RunError, RunReport, WritePlan,
};
use tidy_json::SortOrder;

fn settings(includes: &[&str], excludes: Option<&[&str]>) -> Configuration {
    Configuration {
        include_patterns: includes.iter().map(|text| text.to_string()).collect(),
        exclude_patterns: excludes.map(|all| all.iter().map(|text| text.to_string()).collect()),
        write: true,
        backup: false,
        order: SortOrder::AlphabeticalAsc,
        depth: None,
        indent: None,
        indent_style: None,
        respect_ignore_rules: true,
    }
}

fn select_files(
    cfg: &Configuration,
    entries: &Vec<WalkEntry>,
) -> Result<Result<Vec<String>, SelectionError>, RunError> {
    let selector = prepare(cfg)?;
    assert_eq!(selector.respect_ignore_rules, cfg.respect_ignore_rules);
    Ok(selector.select(entries))
}

fn number(text: &str) -> Json {
    Json::Number(text.to_string())
}

fn object(entries: Vec<(&str, Json)>) -> Json {
    Json::Object(entries.into_iter().map(|(key, value)| (key.to_string(), value)).collect())
}

fn unsorted() -> Json {
    object(vec![("c", number("3")), ("b", number("2")), ("a", number("1"))])
}

const UNSORTED_JSON: &str = r#"
{
    "c": 3,
    "b": 2,
    "a": 1
}"#;

fn outcome(path: &str, failure: Option<&str>) -> FileOutcome {
    FileOutcome {
        path: path.to_string(),
        failure: failure.map(|reason| reason.to_string()),
        elapsed_micros: 12,
    }
}

#[test]
fn test_excludes_flag_does_not_modify_excluded_files() {
    let cfg = settings(&["**/*.json"], Some(&["**/ignored.json"]));
    let entries = vec![
        WalkEntry::File("./sample.json".to_string()),
        WalkEntry::File("./ignored.json".to_string()),
    ];
    let selected = select_files(&cfg, &entries);
    assert_eq!(selected, Ok(Ok(vec!["./sample.json".to_string()])));
}

#[test]
fn run_needs_an_include_pattern() {
    let cfg = settings(&[], Some(&["["]));
    let entries = vec![WalkEntry::File("./sample.json".to_string())];
    assert_eq!(select_files(&cfg, &entries), Err(RunError::NoIncludePatterns));
    assert!(matches!(prepare(&cfg), Err(RunError::NoIncludePatterns)));
}

#[test]
fn run_reports_an_invalid_pattern() {
    let cfg = settings(&["[a"], None);
    match select_files(&cfg, &Vec::new()) {
        Err(RunError::Pattern(error)) => {
            assert_eq!(error.pattern, "[a");
            assert_eq!(error.position, 0);
            assert_eq!(error.reason, "invalid range pattern");
        }
        other => panic!("{:?}", other),
    }
}

#[test]
fn run_reports_an_unreadable_root() {
    let cfg = settings(&["*.json"], None);
    let entries =
        vec![WalkEntry::Unreadable { depth: Some(0), reason: "no such directory".to_string() }];
    assert_eq!(
        select_files(&cfg, &entries),
        Ok(Err(SelectionError::Root("no such directory".to_string())))
    );
}

#[test]
fn run_reports_the_first_invalid_pattern() {
    let cfg = settings(&["*.json", "\"a**\""], Some(&["["]));
    match prepare(&cfg) {
        Err(RunError::Pattern(error)) => assert_eq!(error.pattern, "a**"),
        _ => panic!("no invalid pattern"),
    }
    let cfg = settings(&["*.json"], Some(&["*", "["]));
    match prepare(&cfg) {
        Err(RunError::Pattern(error)) => assert_eq!(error.pattern, "["),
        _ => panic!("no invalid pattern"),
    }
}

#[test]
fn run_hands_the_ignore_setting_on() {
    let mut cfg = settings(&["*.json"], None);
    cfg.respect_ignore_rules = false;
    assert!(!prepare(&cfg).ok().unwrap().respect_ignore_rules);
    cfg.respect_ignore_rules = true;
    assert!(prepare(&cfg).ok().unwrap().respect_ignore_rules);
}

#[test]
fn run_selects_json_files_only() {
    let cfg = settings(&["**/*"], None);
    let entries = vec![
        WalkEntry::File("./a.json".to_string()),
        WalkEntry::File("./b.jsonc".to_string()),
        WalkEntry::File("./c.txt".to_string()),
    ];
    assert_eq!(select_files(&cfg, &entries), Ok(Ok(vec!["./a.json".to_string()])));
}

#[test]
fn empty_selection_is_no_failure() {
    let cfg = settings(&["*.json"], None);
    assert_eq!(select_files(&cfg, &Vec::new()), Ok(Ok(Vec::new())));
}

#[test]
fn rewrite_sorts_and_keeps_the_indent() {
    let cfg = settings(&["*.json"], None);
    let done = rewrite(&unsorted(), UNSORTED_JSON, &cfg);
    assert_eq!(
        done.tree,
        object(vec![("a", number("1")), ("b", number("2")), ("c", number("3"))])
    );
    assert_eq!(done.plan, Some(WritePlan { indent: "    ".to_string(), backup: false }));
}

#[test]
fn rewrite_follows_the_settings() {
    let mut cfg = settings(&["*.json"], None);
    cfg.order = SortOrder::AlphabeticalDesc;
    cfg.backup = true;
    cfg.indent = Some(2);
    cfg.indent_style = Some(IndentStyle::Tabs);
    let done = rewrite(&unsorted(), UNSORTED_JSON, &cfg);
    assert_eq!(done.tree, unsorted());
    assert_eq!(done.plan, Some(WritePlan { indent: "\t\t".to_string(), backup: true }));
}

#[test]
fn rewrite_stops_at_the_depth() {
    let mut cfg = settings(&["*.json"], None);
    cfg.depth = Some(1);
    let nested = object(vec![("b", unsorted()), ("a", number("0"))]);
    let done = rewrite(&nested, "{}", &cfg);
    assert_eq!(done.tree, object(vec![("a", number("0")), ("b", unsorted())]));
    cfg.depth = Some(0);
    assert_eq!(rewrite(&nested, "{}", &cfg).tree, nested);
}

#[test]
fn rewrite_plans_no_writing_unless_asked() {
    let mut cfg = settings(&["*.json"], None);
    cfg.write = false;
    cfg.backup = true;
    let done = rewrite(&unsorted(), UNSORTED_JSON, &cfg);
    assert_eq!(done.plan, None);
    assert_eq!(
        done.tree,
        object(vec![("a", number("1")), ("b", number("2")), ("c", number("3"))])
    );
}

#[test]
fn tally_is_exact() {
    let outcomes = vec![
        outcome("./a.json", None),
        outcome("./b.json", Some("expected value at line 1 column 1")),
        outcome("./c.json", None),
        outcome("./d.json", Some("permission denied")),
        outcome("./e.json", None),
    ];
    assert_eq!(summarize(&outcomes), RunReport { processed: 3, failed: 2 });
    let reversed: Vec<FileOutcome> = outcomes.into_iter().rev().collect();
    assert_eq!(summarize(&reversed), RunReport { processed: 3, failed: 2 });
    assert_eq!(summarize(&Vec::new()), RunReport { processed: 0, failed: 0 });
}

#[test]
fn advice_goes_with_the_message_of_no_files() {
    assert_eq!(
        hint_for("No JSON files found matching the provided patterns"),
        Some("Make sure the file patterns are correct and the files exist.")
    );
    assert_eq!(hint_for("No include file patterns provided"), None);
    assert_eq!(hint_for("no json files found matching the provided patterns"), None);
    assert_eq!(hint_for(""), None);
}
