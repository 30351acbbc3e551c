use tree_rust::filter::Filter;

#[test]
fn a_new_filter_keeps_every_name() {
    let filter = Filter::new();
    assert!(filter.matches("anything", false));
    assert!(filter.matches("", false));
    assert!(filter.matches(".hidden", true));
    assert!(filter.include_patterns.is_empty());
    assert!(filter.exclude_patterns.is_empty());
    assert!(!filter.ignore_case);
}

#[test]
fn the_default_filter_is_the_new_filter() {
    let filter = Filter::default();
    assert!(filter.include_patterns.is_empty());
    assert!(filter.exclude_patterns.is_empty());
    assert!(!filter.ignore_case);
}

#[test]
fn inclusion_patterns_keep_only_what_they_match() {
    let mut filter = Filter::new();
    filter.add_include("*.rs").unwrap();
    assert!(filter.matches("main.rs", false));
    assert!(!filter.matches("main.c", false));
    filter.add_include("*.c").unwrap();
    assert!(filter.matches("main.c", false));
    assert!(!filter.matches("notes.txt", false));
}

#[test]
fn exclusion_patterns_reject_what_they_match() {
    let mut filter = Filter::new();
    filter.add_exclude("target").unwrap();
    assert!(!filter.matches("target", true));
    assert!(filter.matches("targets", true));
    assert!(filter.matches("src", true));
}

#[test]
fn an_exclusion_wins_over_an_inclusion() {
    let mut filter = Filter::new();
    filter.add_include("*.rs").unwrap();
    filter.add_exclude("gen_*").unwrap();
    assert!(filter.matches("lib.rs", false));
    assert!(!filter.matches("gen_lib.rs", false));
    let mut both = Filter::new();
    both.add_include("same").unwrap();
    both.add_exclude("same").unwrap();
    assert!(!both.matches("same", false));
}

#[test]
fn without_inclusions_all_that_is_not_excluded_is_kept() {
    let mut filter = Filter::new();
    filter.add_exclude("*.o").unwrap();
    filter.add_exclude("*.tmp").unwrap();
    assert!(filter.matches("a.rs", false));
    assert!(filter.matches("Makefile", false));
    assert!(!filter.matches("a.o", false));
    assert!(!filter.matches("b.tmp", false));
}

#[test]
fn matching_is_case_sensitive_unless_told_otherwise() {
    let mut exact = Filter::new();
    exact.add_include("*.RS").unwrap();
    assert!(!exact.matches("main.rs", false));
    assert!(exact.matches("MAIN.RS", false));

    let mut loose = Filter::new();
    loose.ignore_case = true;
    loose.add_include("*.RS").unwrap();
    assert!(loose.matches("main.rs", false));
    assert!(loose.matches("MAIN.RS", false));
    assert!(loose.matches("Main.Rs", false));
    assert_eq!(loose.include_patterns[0].as_str(), "*.rs");
}

#[test]
fn ignoring_case_holds_for_exclusions_too() {
    let mut filter = Filter::new();
    filter.ignore_case = true;
    filter.add_exclude("README*").unwrap();
    assert!(!filter.matches("readme.md", false));
    assert!(!filter.matches("ReadMe", false));
    assert!(filter.matches("notes", false));
    assert_eq!(filter.exclude_patterns[0].as_str(), "readme*");
}

#[test]
fn a_pattern_keeps_its_text() {
    let mut filter = Filter::new();
    filter.add_include("a?c").unwrap();
    filter.add_exclude("[xy]*").unwrap();
    assert_eq!(filter.include_patterns.len(), 1);
    assert_eq!(filter.include_patterns[0].as_str(), "a?c");
    assert_eq!(filter.exclude_patterns[0].as_str(), "[xy]*");
    assert!(filter.matches("abc", false));
    assert!(!filter.matches("abbc", false));
}

#[test]
fn a_malformed_pattern_is_reported_and_changes_nothing() {
    let mut filter = Filter::new();
    filter.add_include("ok").unwrap();
    let error = filter.add_include("a[").unwrap_err();
    assert_eq!(error.pos, 1);
    assert_eq!(error.msg, "invalid range pattern");
    assert_eq!(error.message(), "Pattern syntax error near position 1: invalid range pattern");
    assert_eq!(filter.include_patterns.len(), 1);
    let error = filter.add_exclude("a***b").unwrap_err();
    assert_eq!(error.pos, 3);
    assert_eq!(error.message(),
        "Pattern syntax error near position 3: wildcards are either regular `*` or recursive `**`");
    assert!(filter.exclude_patterns.is_empty());
    assert!(filter.matches("ok", false));
}

#[test]
fn whether_the_name_is_a_directory_plays_no_part() {
    let mut filter = Filter::new();
    filter.add_include("src").unwrap();
    assert_eq!(filter.matches("src", true), filter.matches("src", false));
    assert_eq!(filter.matches("doc", true), filter.matches("doc", false));
}
