use asset_library::ignore::IgnoreRules;
use asset_library::scanner::should_visit_entry;

#[test]
fn ignore_rules_match_relative_paths_without_crossing_separators() {
    let rules = IgnoreRules::compile(&vec!["temp/**".to_owned(), "*.tmp".to_owned()]).expect("valid rules");
    assert!(rules.is_ignored("temp/skip.png"));
    assert!(rules.is_ignored("a.tmp"));
    assert!(!rules.is_ignored("nested/a.tmp"));
    assert!(!rules.is_ignored("keep.png"));
    assert!(!should_visit_entry(1, "temp", false, rules.is_ignored("temp/skip.png")));
    assert!(should_visit_entry(1, "keep.png", false, rules.is_ignored("keep.png")));
}

#[test]
fn the_first_invalid_rule_is_reported_with_its_reason() {
    let error = match IgnoreRules::compile(&vec!["ok/**".to_owned(), "[broken".to_owned(), "{also".to_owned()]) {
        Ok(_) => panic!("invalid glob must fail"),
        Err(error) => error,
    };
    assert_eq!(error.rule, "[broken");
    assert!(error.message.contains("[broken"));
    assert!(IgnoreRules::compile(&Vec::new()).is_ok());
}
