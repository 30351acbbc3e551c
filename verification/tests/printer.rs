use tree_rust::printer::draw_compact;
use tree_rust::printer::draw_text;
use tree_rust::printer::format_entry_name;
use tree_rust::printer::layout_compact;
use tree_rust::printer::layout_text;
use tree_rust::printer::meta_fields;
use tree_rust::printer::compact_fields;
use tree_rust::printer::print_tree;
use tree_rust::printer::print_tree_json;
use tree_rust::printer::print_tree_text;
use tree_rust::printer::print_tree_toon;
use tree_rust::printer::OutputFormat;
use tree_rust::printer::PrintConfig;
use tree_rust::printer::PrintError;
use tree_rust::printer::Printed;
use tree_rust::printer::Row;
use tree_rust::printer::TreeNode;
use tree_rust::tree::Metadata;
use tree_rust::tree::Probe;
use tree_rust::tree::Timestamp;
use tree_rust::tree::TreeEntry;
use tree_rust::tree::TreeStats;

fn dir(path: &str, children: Vec<TreeEntry>) -> TreeEntry {
    let mut entry = TreeEntry::new(
        path.to_string(),
        Probe {
            is_symlink: Some(false),
            metadata: Some(Metadata { is_dir: true, len: 4096, mode: 0o40755, modified: None }),
            link_target: None,
        },
    );
    entry.children = children;
    entry
}

fn file(path: &str, len: u64, mode: u32) -> TreeEntry {
    TreeEntry::new(
        path.to_string(),
        Probe {
            is_symlink: Some(false),
            metadata: Some(Metadata { is_dir: false, len, mode, modified: None }),
            link_target: None,
        },
    )
}

fn link(path: &str, target: Option<&str>) -> TreeEntry {
    TreeEntry::new(
        path.to_string(),
        Probe {
            is_symlink: Some(true),
            metadata: Some(Metadata { is_dir: false, len: 7, mode: 0o100777, modified: None }),
            link_target: target.map(|t| t.to_string()),
        },
    )
}

fn dated(path: &str, secs: i64) -> TreeEntry {
    TreeEntry::new(
        path.to_string(),
        Probe {
            is_symlink: Some(false),
            metadata: Some(Metadata {
                is_dir: false,
                len: 1,
                mode: 0o644,
                modified: Some(Timestamp { secs, nanos: 0 }),
            }),
            link_target: None,
        },
    )
}

fn plain() -> PrintConfig {
    PrintConfig { colorize: false, ..PrintConfig::default() }
}

fn stats(directories: usize, files: usize) -> TreeStats {
    TreeStats { directories, files }
}

fn sample() -> TreeEntry {
    dir(
        "/w/root",
        vec![
            dir(
                "/w/root/a",
                vec![file("/w/root/a/one", 1, 0o644), dir("/w/root/a/two", vec![file("/w/root/a/two/x", 2, 0o755)])],
            ),
            file("/w/root/b", 2048, 0o644),
            dir("/w/root/c", vec![file("/w/root/c/last", 3, 0o600)]),
        ],
    )
}

fn row(label: &str, note: Option<&str>, children: Vec<Row>) -> Row {
    Row { label: label.to_string(), note: note.map(|n| n.to_string()), children }
}

fn text(tree: &TreeEntry, config: &PrintConfig, stats: &TreeStats) -> String {
    match print_tree(tree, config, stats).unwrap() {
        Printed::Text(text) => text,
        Printed::Nodes(_) => panic!("text expected"),
    }
}

#[test]
fn the_default_print_configuration_is_a_coloured_text_tree() {
    let config = PrintConfig::default();
    assert!(config.colorize);
    assert!(!config.show_permissions);
    assert!(!config.show_size);
    assert!(!config.human_readable);
    assert!(!config.si_units);
    assert!(!config.show_date);
    assert!(config.time_format.is_none());
    assert!(!config.show_type_indicator);
    assert!(!config.no_indent);
    assert!(!config.full_path);
    assert!(!config.no_report);
    assert_eq!(config.output_format, OutputFormat::Text);
    assert_eq!(OutputFormat::default(), OutputFormat::Text);
}

#[test]
fn connectors_show_the_ancestry() {
    let out = text(&sample(), &plain(), &stats(3, 4));
    let expected = "root\n\
                    ├── a\n\
                    │   ├── one\n\
                    │   └── two\n\
                    │       └── x\n\
                    ├── b\n\
                    └── c\n\
                    \u{20}   └── last\n\
                    \n\
                    3 directories, 4 files\n";
    assert_eq!(out, expected);
}

#[test]
fn a_flat_listing_has_no_connectors() {
    let config = PrintConfig { no_indent: true, no_report: true, ..plain() };
    assert_eq!(text(&sample(), &config, &stats(3, 4)), "root\na\none\ntwo\nx\nb\nc\nlast\n");
}

#[test]
fn the_report_counts_in_words() {
    let tree = dir("/r", vec![]);
    assert_eq!(text(&tree, &plain(), &stats(0, 0)), "r\n\n0 directories, 0 files\n");
    assert_eq!(text(&tree, &plain(), &stats(1, 1)), "r\n\n1 directory, 1 file\n");
    assert_eq!(text(&tree, &plain(), &stats(2, 1)), "r\n\n2 directories, 1 file\n");
    assert_eq!(text(&tree, &plain(), &stats(1, 12)), "r\n\n1 directory, 12 files\n");
    let quiet = PrintConfig { no_report: true, ..plain() };
    assert_eq!(text(&tree, &quiet, &stats(1, 12)), "r\n");
}

#[test]
fn fields_stand_before_the_name_in_a_fixed_order() {
    let tree = dir("/r", vec![file("/r/f", 2048, 0o100644), file("/r/g", 5, 0o100755)]);
    let config = PrintConfig { show_permissions: true, show_size: true, no_report: true, ..plain() };
    assert_eq!(
        text(&tree, &config, &stats(0, 2)),
        "r\n├── -rw-r--r--       2048 f\n└── -rwxr-xr-x          5 g\n"
    );
    let human = PrintConfig { human_readable: true, ..config.clone() };
    assert_eq!(
        text(&tree, &human, &stats(0, 2)),
        "r\n├── -rw-r--r-- 2.0K f\n└── -rwxr-xr-x    5 g\n"
    );
    let si = PrintConfig { si_units: true, show_permissions: false, ..human };
    assert_eq!(text(&tree, &si, &stats(0, 2)), "r\n├── 2.0kB f\n└──    5 g\n");
}

#[test]
fn scaled_sizes_stand_in_a_column() {
    let tree = dir(
        "/r",
        vec![
            file("/r/a", 0, 0o644),
            file("/r/b", 1023, 0o644),
            file("/r/c", 1024, 0o644),
            file("/r/d", 10 * 1024, 0o644),
            file("/r/e", 100 * 1024, 0o644),
            file("/r/f", 1024 * 1024 - 1, 0o644),
        ],
    );
    let config = PrintConfig { show_size: true, human_readable: true, no_report: true, ..plain() };
    assert_eq!(
        text(&tree, &config, &stats(0, 6)),
        "r\n├──    0 a\n├── 1023 b\n├── 1.0K c\n├──  10K d\n├── 100K e\n└── 1024K f\n"
    );
    let si = PrintConfig { si_units: true, ..config };
    assert_eq!(
        text(&tree, &si, &stats(0, 6)),
        "r\n├──    0 a\n├── 1.0kB b\n├── 1.0kB c\n├──  10kB d\n├── 102kB e\n└── 1.0MB f\n"
    );
    let compact = PrintConfig { output_format: OutputFormat::Toon, ..si };
    assert_eq!(
        text(&tree, &compact, &stats(0, 6)),
        "# TOON - Tree Output\nd:4.1kB:r\n  f:0:a\n  f:1.0kB:b\n  f:1.0kB:c\n  f:10kB:d\n  f:102kB:e\n  f:1.0MB:f\n"
    );
}

#[test]
fn the_fields_of_one_line() {
    let entry = file("/r/f", 123, 0o640);
    let all = PrintConfig { show_permissions: true, show_size: true, show_date: true, ..plain() };
    assert_eq!(meta_fields(&entry, &all, &Some("Jan 01 00:00".to_string())), "-rw-r-----        123 Jan 01 00:00 ");
    assert_eq!(meta_fields(&entry, &all, &None), "-rw-r-----        123 ");
    assert_eq!(meta_fields(&entry, &plain(), &None), "");
    let size_only = PrintConfig { show_size: true, human_readable: true, ..plain() };
    assert_eq!(meta_fields(&entry, &size_only, &None), " 123 ");
    assert_eq!(compact_fields(&entry, &all, &Some("D".to_string())), "f:-rw-r-----:123:D:f");
    assert_eq!(compact_fields(&entry, &size_only, &None), "f:123:f");
    assert_eq!(compact_fields(&entry, &plain(), &None), "f:f");
}

#[test]
fn the_root_line_holds_the_name_alone() {
    let tree = file("/r/only", 10, 0o644);
    let config = PrintConfig { show_permissions: true, show_size: true, full_path: true, no_report: true, ..plain() };
    assert_eq!(text(&tree, &config, &stats(0, 0)), "only\n");
}

#[test]
fn full_paths_are_shown_below_the_root() {
    let tree = dir("/r", vec![dir("/r/d", vec![file("/r/d/f", 1, 0o644)])]);
    let config = PrintConfig { full_path: true, no_report: true, ..plain() };
    assert_eq!(text(&tree, &config, &stats(1, 1)), "r\n└── /r/d\n    └── /r/d/f\n");
    assert_eq!(format_entry_name(&tree.children[0], &config, false), "/r/d");
    assert_eq!(format_entry_name(&tree.children[0], &config, true), "d");
}

#[test]
fn type_indicators_follow_the_name() {
    let tree = dir(
        "/r",
        vec![dir("/r/d", vec![]), link("/r/l", Some("d")), file("/r/x", 1, 0o755), file("/r/y", 1, 0o644)],
    );
    let config = PrintConfig { show_type_indicator: true, no_report: true, ..plain() };
    assert_eq!(text(&tree, &config, &stats(1, 3)), "r/\n├── d/\n├── l@ -> d\n├── x*\n└── y\n");
}

#[test]
fn a_link_shows_its_target() {
    assert_eq!(format_entry_name(&link("/r/l", Some("../to")), &plain(), false), "l -> ../to");
    assert_eq!(format_entry_name(&link("/r/l", None), &plain(), false), "l");
    let mut odd = file("/r/f", 1, 0o644);
    odd.symlink_target = Some("t".to_string());
    assert_eq!(format_entry_name(&odd, &plain(), false), "f");
}

#[test]
fn an_error_stands_below_its_entry_at_the_indent_of_the_children() {
    let mut locked = dir("/r/locked", vec![]);
    locked.error = Some("error opening dir: denied".to_string());
    let mut last = dir("/r/z", vec![]);
    last.error = Some("error opening dir: gone".to_string());
    let tree = dir("/r", vec![locked, file("/r/m", 1, 0o644), last]);
    let config = PrintConfig { no_report: true, ..plain() };
    assert_eq!(
        text(&tree, &config, &stats(2, 1)),
        "r\n├── locked\n│   error opening dir: denied\n├── m\n└── z\n    error opening dir: gone\n"
    );
    let flat = PrintConfig { no_indent: true, ..config };
    assert_eq!(
        text(&tree, &flat, &stats(2, 1)),
        "r\nlocked\nerror opening dir: denied\nm\nz\nerror opening dir: gone\n"
    );
}

#[test]
fn the_error_of_the_root_is_not_shown() {
    let mut tree = dir("/r", vec![]);
    tree.error = Some("error opening dir: denied".to_string());
    let config = PrintConfig { no_report: true, ..plain() };
    assert_eq!(text(&tree, &config, &stats(0, 0)), "r\n");
}

#[test]
fn rows_are_drawn_as_they_are_given() {
    let root = row(
        "top",
        Some("never drawn"),
        vec![
            row("first", Some("note"), vec![row("inner", None, vec![])]),
            row("second", None, vec![]),
        ],
    );
    assert_eq!(
        draw_text(&root, false, false, &stats(1, 2)),
        "top\n├── first\n│   note\n│   └── inner\n└── second\n\n1 directory, 2 files\n"
    );
    assert_eq!(draw_text(&root, true, true, &stats(1, 2)), "top\nfirst\nnote\ninner\nsecond\n");
    assert_eq!(
        draw_compact(&root),
        "# TOON - Tree Output\ntop\n  first\n    inner\n  second\n"
    );
}

#[test]
fn the_layout_follows_the_tree() {
    let tree = sample();
    let root = layout_text(&tree, &plain(), true).unwrap();
    assert_eq!(root.label, "root");
    assert!(root.note.is_none());
    assert_eq!(root.children.len(), 3);
    assert_eq!(root.children[0].children[1].children[0].label, "x");
    let compact = layout_compact(&tree, &plain()).unwrap();
    assert_eq!(compact.label, "d:root");
    assert_eq!(compact.children[1].label, "f:b");
    assert_eq!(compact.children[2].children[0].label, "f:last");
}

#[test]
fn the_compact_notation_has_one_line_for_each_entry() {
    let out = text(&sample(), &PrintConfig { output_format: OutputFormat::Toon, ..plain() }, &stats(3, 4));
    assert_eq!(
        out,
        "# TOON - Tree Output\nd:root\n  d:a\n    f:one\n    d:two\n      f:x\n  f:b\n  d:c\n    f:last\n"
    );
}

#[test]
fn the_compact_notation_joins_its_fields_by_colons() {
    let tree = dir("/r", vec![file("/r/f", 2048, 0o100644), link("/r/l", Some("f"))]);
    let config = PrintConfig {
        output_format: OutputFormat::Toon,
        show_permissions: true,
        show_size: true,
        ..plain()
    };
    assert_eq!(
        print_tree_toon(&tree, &config).unwrap(),
        "# TOON - Tree Output\nd:drwxr-xr-x:4096:r\n  f:-rw-r--r--:2048:f\n  l:lrwxrwxrwx:7:l -> f\n"
    );
    let human = PrintConfig { human_readable: true, show_permissions: false, ..config };
    assert_eq!(
        print_tree_toon(&tree, &human).unwrap(),
        "# TOON - Tree Output\nd:4.0K:r\n  f:2.0K:f\n  l:7:l -> f\n"
    );
}

#[test]
fn the_compact_notation_shows_children_of_directories_only() {
    let mut odd = file("/r/f", 1, 0o644);
    odd.children.push(file("/r/f/ghost", 1, 0o644));
    let tree = dir("/r", vec![odd]);
    assert_eq!(print_tree_toon(&tree, &plain()).unwrap(), "# TOON - Tree Output\nd:r\n  f:f\n");
}

#[test]
fn a_single_file_is_a_list_of_one_node() {
    let nodes = print_tree_json(&file("/somewhere/x", 1, 0o644));
    assert_eq!(nodes.len(), 1);
    assert_eq!(nodes[0].node_type, "file");
    assert_eq!(nodes[0].name, "x");
    assert!(nodes[0].contents.is_none());
    assert!(nodes[0].target.is_none());
}

#[test]
fn nodes_follow_the_tree() {
    let tree = dir("/r", vec![dir("/r/empty", vec![]), link("/r/l", Some("empty")), file("/r/f", 1, 0o644)]);
    let node = TreeNode::from_entry(&tree);
    assert_eq!(node.node_type, "directory");
    assert_eq!(node.name, "r");
    assert!(node.target.is_none());
    let contents = node.contents.as_ref().unwrap();
    assert_eq!(contents.len(), 3);
    assert_eq!(contents[0].node_type, "directory");
    assert_eq!(contents[0].name, "empty");
    assert!(contents[0].contents.is_none());
    assert_eq!(contents[1].node_type, "link");
    assert_eq!(contents[1].target.as_deref(), Some("empty"));
    assert!(contents[1].contents.is_none());
    assert_eq!(contents[2].node_type, "file");
    let config = PrintConfig { output_format: OutputFormat::Json, show_date: true, ..plain() };
    match print_tree(&tree, &config, &stats(1, 2)).unwrap() {
        Printed::Nodes(nodes) => {
            assert_eq!(nodes.len(), 1);
            assert_eq!(nodes[0].contents.as_ref().unwrap().len(), 3);
        },
        Printed::Text(_) => panic!("nodes expected"),
    }
}

#[test]
fn a_directory_link_is_a_directory_node_with_a_target() {
    let mut entry = link("/r/l", Some("/elsewhere"));
    entry.is_dir = true;
    entry.children.push(file("/elsewhere/f", 1, 0o644));
    let node = TreeNode::from_entry(&entry);
    assert_eq!(node.node_type, "directory");
    assert_eq!(node.target.as_deref(), Some("/elsewhere"));
    assert_eq!(node.contents.as_ref().unwrap().len(), 1);
    let mut odd = file("/r/f", 1, 0o644);
    odd.children.push(file("/r/f/ghost", 1, 0o644));
    assert!(TreeNode::from_entry(&odd).contents.is_none());
}

#[test]
fn dates_are_shown_where_they_are_known() {
    let tree = dir("/r", vec![dated("/r/new", 86_400 * 400), file("/r/old", 1, 0o644)]);
    let config = PrintConfig {
        show_date: true,
        time_format: Some("%Y".to_string()),
        no_report: true,
        ..plain()
    };
    assert_eq!(print_tree_text(&tree, &config, &stats(0, 2)).unwrap(), "r\n├── 1971 new\n└── old\n");
    assert_eq!(
        print_tree_toon(&tree, &config).unwrap(),
        "# TOON - Tree Output\nd:r\n  f:1971:new\n  f:old\n"
    );
    let by_default = PrintConfig { time_format: None, ..config };
    let out = print_tree_text(&tree, &by_default, &stats(0, 2)).unwrap();
    assert_eq!(out.lines().nth(1).unwrap().chars().count(), "├── ".chars().count() + 12 + " new".len());
}

#[test]
fn a_time_pattern_that_cannot_be_used_fails_the_rendering() {
    let tree = dir("/r", vec![dated("/r/new", 0)]);
    let config = PrintConfig { show_date: true, time_format: Some("%".to_string()), ..plain() };
    assert_eq!(print_tree_text(&tree, &config, &stats(0, 1)).unwrap_err(), PrintError::TimeFormat);
    assert_eq!(print_tree_toon(&tree, &config).unwrap_err(), PrintError::TimeFormat);
    assert!(print_tree(&tree, &config, &stats(0, 1)).is_err());
    let undated = dir("/r", vec![file("/r/old", 1, 0o644)]);
    assert!(print_tree_text(&undated, &config, &stats(0, 1)).is_ok());
    let hidden = PrintConfig { show_date: false, ..config };
    assert!(print_tree_text(&tree, &hidden, &stats(0, 1)).is_ok());
}
