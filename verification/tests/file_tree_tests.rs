use ntfs_search::file_tree::{FileEntry, FileTree, MAX_NAME_BYTES};

fn sample() -> FileTree {
    let mut tree = FileTree::new();
    assert!(tree.insert(5, String::from("C:"), 0));
    assert!(tree.insert(10, String::from("Users"), 5));
    assert!(tree.insert(11, String::from("alice"), 10));
    assert!(tree.insert(20, String::from("tmp"), 5));
    tree
}

#[test]
fn a_new_tree_is_empty() {
    let tree = FileTree::new();
    assert!(tree.is_empty());
    assert_eq!(tree.len(), 0);
    assert!(tree.get(5).is_none());
    assert!(tree.entries().is_empty());
}

#[test]
fn a_path_runs_from_the_root_down() {
    let tree = sample();
    assert_eq!(tree.get_path(5), Some(String::from("C:\\")));
    assert_eq!(tree.get_path(10), Some(String::from("C:\\Users\\")));
    assert_eq!(tree.get_path(11), Some(String::from("C:\\Users\\alice\\")));
    assert_eq!(tree.get_path(20), Some(String::from("C:\\tmp\\")));
}

#[test]
fn the_path_of_no_file_is_empty() {
    let tree = sample();
    assert_eq!(tree.get_path(0), Some(String::new()));
    assert_eq!(FileTree::new().get_path(0), Some(String::new()));
}

#[test]
fn a_file_that_is_not_there_has_no_path() {
    let tree = sample();
    assert_eq!(tree.get_path(99), None);
    assert_eq!(FileTree::new().get_path(5), None);
}

#[test]
fn a_missing_link_leaves_no_path() {
    let mut tree = sample();
    tree.remove(10);
    assert_eq!(tree.get_path(11), None);
    assert!(tree.get(11).is_some());
    assert_eq!(tree.len(), 3);
}

#[test]
fn removing_a_file_leaves_other_paths() {
    let mut tree = sample();
    tree.remove(10);
    assert_eq!(tree.get_path(20), Some(String::from("C:\\tmp\\")));
    assert_eq!(tree.get_path(5), Some(String::from("C:\\")));
    tree.remove(11);
    assert_eq!(tree.get_path(20), Some(String::from("C:\\tmp\\")));
}

#[test]
fn removing_what_is_not_there_changes_nothing() {
    let mut tree = sample();
    tree.remove(99);
    assert_eq!(tree.len(), 4);
    assert_eq!(tree.get_path(11), Some(String::from("C:\\Users\\alice\\")));
}

#[test]
fn a_walk_in_a_circle_has_no_path() {
    let mut tree = FileTree::new();
    tree.insert(1, String::from("a"), 2);
    tree.insert(2, String::from("b"), 1);
    assert_eq!(tree.get_path(1), None);
    assert_eq!(tree.get_path(2), None);
    tree.insert(3, String::from("c"), 3);
    assert_eq!(tree.get_path(3), None);
}

#[test]
fn insert_puts_a_file_in_place_of_the_old_one() {
    let mut tree = sample();
    assert!(tree.insert(11, String::from("bob"), 20));
    assert_eq!(tree.len(), 4);
    assert_eq!(tree.get_path(11), Some(String::from("C:\\tmp\\bob\\")));
    let entry = tree.get(11).unwrap();
    assert_eq!(entry.name, "bob");
    assert_eq!(entry.parent_id, 20);
}

#[test]
fn insert_gives_the_filter_of_the_lower_case_name_and_rank_0() {
    let mut tree = FileTree::new();
    tree.insert(7, String::from("Ab1"), 5);
    let entry = tree.get(7).unwrap();
    assert_eq!(entry.name, "Ab1");
    assert_eq!(entry.parent_id, 5);
    assert_eq!(entry.quick_filter, 0b11 | 0x400_0000);
    assert_eq!(entry.rank, 0);
}

#[test]
fn insert_simple_keeps_the_entry_as_it_is() {
    let mut tree = FileTree::new();
    let stored = tree.insert_simple(
        7,
        FileEntry { parent_id: 5, name: String::from("Ab1"), quick_filter: 0x1234, rank: -3 },
    );
    assert!(stored);
    let entry = tree.get(7).unwrap();
    assert_eq!(entry.quick_filter, 0x1234);
    assert_eq!(entry.rank, -3);
}

#[test]
fn a_name_longer_than_a_snapshot_can_hold_is_refused() {
    let mut tree = sample();
    let long = "x".repeat(MAX_NAME_BYTES + 1);
    assert!(!tree.insert(30, long.clone(), 5));
    assert!(tree.get(30).is_none());
    assert_eq!(tree.len(), 4);
    assert!(!tree.insert(11, long, 5));
    assert_eq!(tree.get(11).unwrap().name, "alice");
    let longest = "x".repeat(MAX_NAME_BYTES);
    assert!(tree.insert(30, longest, 5));
    assert_eq!(tree.len(), 5);
}

#[test]
fn the_length_of_a_name_is_counted_in_bytes() {
    let mut tree = FileTree::new();
    let name = "\u{00E9}".repeat(MAX_NAME_BYTES / 2 + 1);
    assert!(name.chars().count() <= MAX_NAME_BYTES);
    assert!(!tree.insert(1, name, 0));
}

#[test]
fn entries_come_in_ascending_order() {
    let mut tree = FileTree::new();
    tree.insert(30, String::from("c"), 0);
    tree.insert(10, String::from("a"), 0);
    tree.insert(u64::MAX, String::from("z"), 0);
    tree.insert(20, String::from("b"), 0);
    let ids: Vec<u64> = tree.entries().iter().map(|record| record.0).collect();
    assert_eq!(ids, vec![10, 20, 30, u64::MAX]);
    let names: Vec<&str> = tree.entries().iter().map(|record| record.1.name.as_str()).collect();
    assert_eq!(names, vec!["a", "b", "c", "z"]);
}

#[test]
fn clear_drops_every_file() {
    let mut tree = sample();
    tree.clear();
    assert!(tree.is_empty());
    assert_eq!(tree.get_path(5), None);
    assert_eq!(tree.len(), 0);
}
