use tree_rust::tree::triplet;
use tree_rust::tree::to_ascii_upper;
use tree_rust::tree::Metadata;
use tree_rust::tree::Probe;
use tree_rust::tree::Timestamp;
use tree_rust::tree::TreeConfig;
use tree_rust::tree::TreeEntry;
use tree_rust::tree::TreeStats;
use tree_rust::sort::SortKey;

fn meta(is_dir: bool, len: u64, mode: u32) -> Metadata {
    Metadata { is_dir, len, mode, modified: Some(Timestamp { secs: 10, nanos: 0 }) }
}

fn file(path: &str, mode: u32) -> TreeEntry {
    TreeEntry::new(
        path.to_string(),
        Probe { is_symlink: Some(false), metadata: Some(meta(false, 3, mode)), link_target: None },
    )
}

#[test]
fn an_entry_is_named_by_the_last_component_of_its_path() {
    assert_eq!(file("/a/b/c.txt", 0o644).name, "c.txt");
    assert_eq!(file("c.txt", 0o644).name, "c.txt");
    assert_eq!(file("/a/b/", 0o644).name, "b");
    assert_eq!(file("a/./b", 0o644).name, "b");
    assert_eq!(file("/a/b/c.txt", 0o644).path, "/a/b/c.txt");
}

#[test]
fn a_path_without_a_last_component_names_itself() {
    assert_eq!(file("/", 0o755).name, "/");
    assert_eq!(file("..", 0o755).name, "..");
    assert_eq!(file("a/..", 0o755).name, "a/..");
    assert_eq!(file("", 0o755).name, "");
    assert_eq!(file(".", 0o755).name, ".");
}

#[test]
fn a_fresh_entry_has_no_children_and_no_error() {
    let entry = file("x", 0o644);
    assert!(entry.children.is_empty());
    assert!(entry.error.is_none());
    assert!(!entry.is_dir);
    assert!(!entry.is_symlink);
    assert!(entry.symlink_target.is_none());
}

#[test]
fn the_kind_comes_from_the_probe() {
    let dir = TreeEntry::new(
        "d".to_string(),
        Probe { is_symlink: Some(false), metadata: Some(meta(true, 4096, 0o755)), link_target: None },
    );
    assert!(dir.is_dir);
    assert!(!dir.is_symlink);
    let link = TreeEntry::new(
        "l".to_string(),
        Probe {
            is_symlink: Some(true),
            metadata: Some(meta(true, 4096, 0o755)),
            link_target: Some("d".to_string()),
        },
    );
    assert!(link.is_dir);
    assert!(link.is_symlink);
    assert_eq!(link.symlink_target.as_deref(), Some("d"));
}

#[test]
fn a_link_target_is_kept_for_links_only() {
    let plain = TreeEntry::new(
        "f".to_string(),
        Probe {
            is_symlink: Some(false),
            metadata: Some(meta(false, 1, 0o644)),
            link_target: Some("elsewhere".to_string()),
        },
    );
    assert!(plain.symlink_target.is_none());
    let unknown = TreeEntry::new(
        "f".to_string(),
        Probe { is_symlink: None, metadata: None, link_target: Some("elsewhere".to_string()) },
    );
    assert!(!unknown.is_symlink);
    assert!(unknown.symlink_target.is_none());
}

#[test]
fn a_broken_link_is_a_link_without_metadata() {
    let broken = TreeEntry::new(
        "dangling".to_string(),
        Probe { is_symlink: Some(true), metadata: None, link_target: Some("gone".to_string()) },
    );
    assert!(broken.is_symlink);
    assert!(!broken.is_dir);
    assert!(broken.metadata.is_none());
    assert_eq!(broken.symlink_target.as_deref(), Some("gone"));
    assert_eq!(broken.size(), 0);
    assert!(broken.modified().is_none());
    assert_eq!(broken.permissions_string(), "----------");
    assert!(!broken.is_executable());
    assert_eq!(broken.type_indicator(), "@");
    let unreadable = TreeEntry::new(
        "dangling".to_string(),
        Probe { is_symlink: Some(true), metadata: None, link_target: None },
    );
    assert!(unreadable.is_symlink);
    assert!(unreadable.symlink_target.is_none());
}

#[test]
fn size_and_time_come_from_the_metadata() {
    let entry = file("x", 0o644);
    assert_eq!(entry.size(), 3);
    assert_eq!(entry.modified(), Some(Timestamp { secs: 10, nanos: 0 }));
    let timeless = TreeEntry::new(
        "x".to_string(),
        Probe {
            is_symlink: Some(false),
            metadata: Some(Metadata { is_dir: false, len: 9, mode: 0, modified: None }),
            link_target: None,
        },
    );
    assert_eq!(timeless.size(), 9);
    assert!(timeless.modified().is_none());
}

#[test]
fn a_triplet_shows_read_write_and_execute() {
    assert_eq!(triplet(0o7, false, 's'), "rwx");
    assert_eq!(triplet(0o6, false, 's'), "rw-");
    assert_eq!(triplet(0o5, false, 's'), "r-x");
    assert_eq!(triplet(0o4, false, 's'), "r--");
    assert_eq!(triplet(0o3, false, 's'), "-wx");
    assert_eq!(triplet(0o2, false, 's'), "-w-");
    assert_eq!(triplet(0o1, false, 's'), "--x");
    assert_eq!(triplet(0o0, false, 's'), "---");
}

#[test]
fn a_special_bit_replaces_the_execute_mark() {
    assert_eq!(triplet(0o7, true, 's'), "rws");
    assert_eq!(triplet(0o6, true, 's'), "rwS");
    assert_eq!(triplet(0o5, true, 't'), "r-t");
    assert_eq!(triplet(0o4, true, 't'), "r-T");
    assert_eq!(triplet(0o0, true, '1'), "--1");
}

#[test]
fn only_ascii_letters_are_raised() {
    assert_eq!(to_ascii_upper('s'), 'S');
    assert_eq!(to_ascii_upper('a'), 'A');
    assert_eq!(to_ascii_upper('z'), 'Z');
    assert_eq!(to_ascii_upper('S'), 'S');
    assert_eq!(to_ascii_upper('7'), '7');
    assert_eq!(to_ascii_upper('{'), '{');
    assert_eq!(to_ascii_upper('`'), '`');
    assert_eq!(to_ascii_upper('é'), 'é');
}

#[test]
fn the_permission_string_has_ten_characters() {
    assert_eq!(file("f", 0o644).permissions_string(), "-rw-r--r--");
    assert_eq!(file("f", 0o100755).permissions_string(), "-rwxr-xr-x");
    assert_eq!(file("f", 0o000).permissions_string(), "----------");
    assert_eq!(file("f", 0o777).permissions_string(), "-rwxrwxrwx");
    let dir = TreeEntry::new(
        "d".to_string(),
        Probe { is_symlink: Some(false), metadata: Some(meta(true, 0, 0o40750)), link_target: None },
    );
    assert_eq!(dir.permissions_string(), "drwxr-x---");
    let link = TreeEntry::new(
        "l".to_string(),
        Probe {
            is_symlink: Some(true),
            metadata: Some(meta(false, 0, 0o777)),
            link_target: Some("f".to_string()),
        },
    );
    assert_eq!(link.permissions_string(), "lrwxrwxrwx");
}

#[test]
fn set_id_and_sticky_bits_show_in_the_permission_string() {
    assert_eq!(file("f", 0o4755).permissions_string(), "-rwsr-xr-x");
    assert_eq!(file("f", 0o4644).permissions_string(), "-rwSr--r--");
    assert_eq!(file("f", 0o2755).permissions_string(), "-rwxr-sr-x");
    assert_eq!(file("f", 0o2745).permissions_string(), "-rwxr-Sr-x");
    assert_eq!(file("f", 0o1777).permissions_string(), "-rwxrwxrwt");
    assert_eq!(file("f", 0o1776).permissions_string(), "-rwxrwxrwT");
    assert_eq!(file("f", 0o7000).permissions_string(), "---S--S--T");
}

#[test]
fn a_file_with_an_execute_bit_is_executable() {
    assert!(file("f", 0o755).is_executable());
    assert!(file("f", 0o100).is_executable());
    assert!(file("f", 0o010).is_executable());
    assert!(file("f", 0o001).is_executable());
    assert!(!file("f", 0o666).is_executable());
    let dir = TreeEntry::new(
        "d".to_string(),
        Probe { is_symlink: Some(false), metadata: Some(meta(true, 0, 0o755)), link_target: None },
    );
    assert!(!dir.is_executable());
}

#[test]
fn the_type_indicator_marks_the_kind() {
    let dir = TreeEntry::new(
        "d".to_string(),
        Probe { is_symlink: Some(true), metadata: Some(meta(true, 0, 0o755)), link_target: None },
    );
    assert_eq!(dir.type_indicator(), "/");
    let link = TreeEntry::new(
        "l".to_string(),
        Probe { is_symlink: Some(true), metadata: Some(meta(false, 0, 0o755)), link_target: None },
    );
    assert_eq!(link.type_indicator(), "@");
    assert_eq!(file("f", 0o755).type_indicator(), "*");
    assert_eq!(file("f", 0o644).type_indicator(), "");
}

#[test]
fn a_clone_is_the_same_tree() {
    let mut root = TreeEntry::new(
        "/r".to_string(),
        Probe { is_symlink: Some(false), metadata: Some(meta(true, 0, 0o755)), link_target: None },
    );
    let mut sub = TreeEntry::new(
        "/r/s".to_string(),
        Probe { is_symlink: Some(false), metadata: Some(meta(true, 0, 0o700)), link_target: None },
    );
    sub.error = Some("error opening dir: denied".to_string());
    root.children.push(sub);
    root.children.push(file("/r/f", 0o644));
    let copy = root.clone();
    assert_eq!(copy.path, "/r");
    assert_eq!(copy.children.len(), 2);
    assert_eq!(copy.children[0].name, "s");
    assert_eq!(copy.children[0].error.as_deref(), Some("error opening dir: denied"));
    assert_eq!(copy.children[1].name, "f");
    assert_eq!(copy.children[1].metadata, root.children[1].metadata);
}

#[test]
fn the_default_configuration_shows_visible_entries_by_name() {
    let config = TreeConfig::default();
    assert!(!config.show_hidden);
    assert!(!config.dirs_only);
    assert_eq!(config.max_depth, None);
    assert!(!config.follow_symlinks);
    assert!(!config.full_path);
    assert!(config.filter.include_patterns.is_empty());
    assert!(config.filter.exclude_patterns.is_empty());
    assert_eq!(config.sort_key, SortKey::Name);
    assert!(!config.sort_reverse);
    assert!(!config.dirs_first);
}

#[test]
fn the_counts_begin_at_zero() {
    let stats = TreeStats::default();
    assert_eq!(stats.directories, 0);
    assert_eq!(stats.files, 0);
}
