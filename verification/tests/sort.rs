use std::cmp::Ordering;
use tree_rust::sort::SortKey;
use tree_rust::sort::Sorter;
use tree_rust::tree::Metadata;
use tree_rust::tree::Probe;
use tree_rust::tree::Timestamp;
use tree_rust::tree::TreeEntry;

fn entry(name: &str, is_dir: bool, len: u64, secs: Option<i64>) -> TreeEntry {
    TreeEntry::new(
        format!("/t/{}", name),
        Probe {
            is_symlink: Some(false),
            metadata: Some(Metadata {
                is_dir,
                len,
                mode: 0o644,
                modified: secs.map(|s| Timestamp { secs: s, nanos: 0 }),
            }),
            link_target: None,
        },
    )
}

fn bare(name: &str) -> TreeEntry {
    TreeEntry::new(format!("/t/{}", name), Probe { is_symlink: None, metadata: None, link_target: None })
}

fn names(entries: &Vec<TreeEntry>) -> Vec<String> {
    entries.iter().map(|e| e.name.clone()).collect()
}

fn sample() -> Vec<TreeEntry> {
    vec![
        entry("pear", false, 30, Some(300)),
        entry("Apple", true, 10, Some(200)),
        entry("fig", false, 20, Some(100)),
        entry("Banana", true, 40, None),
    ]
}

#[test]
fn a_key_is_named_in_any_letter_case() {
    assert_eq!(SortKey::from_str("name"), SortKey::Name);
    assert_eq!(SortKey::from_str("size"), SortKey::Size);
    assert_eq!(SortKey::from_str("SIZE"), SortKey::Size);
    assert_eq!(SortKey::from_str("mtime"), SortKey::Time);
    assert_eq!(SortKey::from_str("time"), SortKey::Time);
    assert_eq!(SortKey::from_str("Time"), SortKey::Time);
    assert_eq!(SortKey::from_str("none"), SortKey::Unsorted);
    assert_eq!(SortKey::from_str("NoNe"), SortKey::Unsorted);
}

#[test]
fn an_unknown_word_names_the_name_key() {
    assert_eq!(SortKey::from_str(""), SortKey::Name);
    assert_eq!(SortKey::from_str("date"), SortKey::Name);
    assert_eq!(SortKey::from_str(" size"), SortKey::Name);
    assert_eq!(SortKey::default(), SortKey::Name);
}

#[test]
fn a_sorter_holds_what_it_was_made_with() {
    let sorter = Sorter::new(SortKey::Size, true, false);
    assert_eq!(sorter.key, SortKey::Size);
    assert!(sorter.reverse);
    assert!(!sorter.dirs_first);
}

#[test]
fn names_are_sorted_without_regard_to_case() {
    let mut entries = sample();
    Sorter::new(SortKey::Name, false, false).sort(&mut entries);
    assert_eq!(names(&entries), ["Apple", "Banana", "fig", "pear"]);
}

#[test]
fn sizes_are_sorted_upwards() {
    let mut entries = sample();
    Sorter::new(SortKey::Size, false, false).sort(&mut entries);
    assert_eq!(names(&entries), ["Apple", "fig", "pear", "Banana"]);
}

#[test]
fn an_entry_without_metadata_has_size_zero() {
    let mut entries = vec![entry("b", false, 5, None), bare("a"), entry("c", false, 1, None)];
    Sorter::new(SortKey::Size, false, false).sort(&mut entries);
    assert_eq!(names(&entries), ["a", "c", "b"]);
}

#[test]
fn times_are_sorted_upwards_and_the_unknown_come_last() {
    let mut entries = sample();
    Sorter::new(SortKey::Time, false, false).sort(&mut entries);
    assert_eq!(names(&entries), ["fig", "Apple", "pear", "Banana"]);
    let mut more = vec![bare("x"), entry("y", false, 0, None), entry("z", false, 0, Some(1))];
    Sorter::new(SortKey::Time, false, false).sort(&mut more);
    assert_eq!(names(&more), ["z", "x", "y"]);
}

#[test]
fn nanoseconds_break_ties_between_seconds() {
    let mut a = entry("a", false, 0, Some(5));
    let mut b = entry("b", false, 0, Some(5));
    a.metadata.as_mut().unwrap().modified = Some(Timestamp { secs: 5, nanos: 900 });
    b.metadata.as_mut().unwrap().modified = Some(Timestamp { secs: 5, nanos: 100 });
    let sorter = Sorter::new(SortKey::Time, false, false);
    assert_eq!(sorter.compare(&a, &b), Ordering::Greater);
    assert_eq!(sorter.compare(&b, &a), Ordering::Less);
    assert_eq!(sorter.compare(&a, &a), Ordering::Equal);
    let mut entries = vec![a, b];
    sorter.sort(&mut entries);
    assert_eq!(names(&entries), ["b", "a"]);
}

#[test]
fn reversing_turns_the_order_round() {
    let mut entries = sample();
    Sorter::new(SortKey::Name, true, false).sort(&mut entries);
    assert_eq!(names(&entries), ["pear", "fig", "Banana", "Apple"]);
    let mut by_time = sample();
    Sorter::new(SortKey::Time, true, false).sort(&mut by_time);
    assert_eq!(names(&by_time), ["Banana", "pear", "Apple", "fig"]);
}

#[test]
fn without_a_key_the_order_stays_as_given() {
    let mut entries = sample();
    Sorter::new(SortKey::Unsorted, false, false).sort(&mut entries);
    assert_eq!(names(&entries), ["pear", "Apple", "fig", "Banana"]);
    let mut reversed = sample();
    Sorter::new(SortKey::Unsorted, true, false).sort(&mut reversed);
    assert_eq!(names(&reversed), ["pear", "Apple", "fig", "Banana"]);
}

#[test]
fn directories_first_puts_every_directory_ahead() {
    let mut entries = sample();
    Sorter::new(SortKey::Name, false, true).sort(&mut entries);
    assert_eq!(names(&entries), ["Apple", "Banana", "fig", "pear"]);
    let mut by_size = sample();
    Sorter::new(SortKey::Size, false, true).sort(&mut by_size);
    assert_eq!(names(&by_size), ["Apple", "Banana", "fig", "pear"]);
}

#[test]
fn directories_first_is_not_reversed() {
    let mut entries = sample();
    Sorter::new(SortKey::Name, true, true).sort(&mut entries);
    assert_eq!(names(&entries), ["Banana", "Apple", "pear", "fig"]);
    for key in [SortKey::Name, SortKey::Size, SortKey::Time, SortKey::Unsorted] {
        for reverse in [false, true] {
            let mut all = sample();
            Sorter::new(key, reverse, true).sort(&mut all);
            assert!(all[0].is_dir && all[1].is_dir);
            assert!(!all[2].is_dir && !all[3].is_dir);
        }
    }
}

#[test]
fn directories_first_without_a_key_keeps_each_group_in_order() {
    let mut entries = sample();
    Sorter::new(SortKey::Unsorted, false, true).sort(&mut entries);
    assert_eq!(names(&entries), ["Apple", "Banana", "pear", "fig"]);
}

#[test]
fn equal_entries_keep_their_order() {
    let mut entries = vec![
        entry("c", false, 7, None),
        entry("a", false, 7, None),
        entry("b", false, 1, None),
        entry("d", false, 7, None),
    ];
    Sorter::new(SortKey::Size, false, false).sort(&mut entries);
    assert_eq!(names(&entries), ["b", "c", "a", "d"]);
    Sorter::new(SortKey::Size, true, false).sort(&mut entries);
    assert_eq!(names(&entries), ["c", "a", "d", "b"]);
    let mut same_names = vec![entry("README", false, 1, None), entry("readme", false, 2, None)];
    Sorter::new(SortKey::Name, false, false).sort(&mut same_names);
    assert_eq!(same_names[0].size(), 1);
    Sorter::new(SortKey::Name, true, false).sort(&mut same_names);
    assert_eq!(same_names[0].size(), 1);
}

#[test]
fn names_compare_by_their_lower_case_characters() {
    let sorter = Sorter::new(SortKey::Name, false, false);
    assert_eq!(sorter.compare(&bare("a"), &bare("B")), Ordering::Less);
    assert_eq!(sorter.compare(&bare("B"), &bare("a")), Ordering::Greater);
    assert_eq!(sorter.compare(&bare("ab"), &bare("a")), Ordering::Greater);
    assert_eq!(sorter.compare(&bare("a"), &bare("ab")), Ordering::Less);
    assert_eq!(sorter.compare(&bare("Abc"), &bare("aBC")), Ordering::Equal);
    assert_eq!(sorter.compare(&bare("z"), &bare("é")), Ordering::Less);
    assert_eq!(sorter.compare(&bare("_x"), &bare("X")), Ordering::Less);
}

#[test]
fn sorting_nothing_or_one_entry_changes_nothing() {
    let mut none: Vec<TreeEntry> = Vec::new();
    Sorter::new(SortKey::Name, false, true).sort(&mut none);
    assert!(none.is_empty());
    let mut one = vec![bare("only")];
    Sorter::new(SortKey::Time, true, true).sort(&mut one);
    assert_eq!(names(&one), ["only"]);
}
