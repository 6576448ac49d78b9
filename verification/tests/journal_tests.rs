use ntfs_search::file_tree::FileTree;
use ntfs_search::journal::{
    apply_record, apply_records, is_adding, is_dir, read_batch, read_change, read_name_info, read_units,
    UsnRecord, ADDING_REASONS, FILE_ATTRIBUTE_DIRECTORY, REASON_MASK, USN_REASON_FILE_CREATE, USN_REASON_FILE_DELETE,
    USN_REASON_RENAME_NEW_NAME, USN_REASON_RENAME_OLD_NAME,
};

fn raw_record(file_ref: u64, parent_ref: u64, usn: i64, reason: u32, units: &[u16]) -> Vec<u8> {
    let name_bytes = units.len() * 2;
    let len = (60 + name_bytes + 7) / 8 * 8;
    let mut bytes = Vec::new();
    bytes.extend_from_slice(&(len as u32).to_le_bytes());
    bytes.extend_from_slice(&2u16.to_le_bytes());
    bytes.extend_from_slice(&0u16.to_le_bytes());
    bytes.extend_from_slice(&file_ref.to_le_bytes());
    bytes.extend_from_slice(&parent_ref.to_le_bytes());
    bytes.extend_from_slice(&usn.to_le_bytes());
    bytes.extend_from_slice(&0i64.to_le_bytes());
    bytes.extend_from_slice(&reason.to_le_bytes());
    bytes.extend_from_slice(&0u32.to_le_bytes());
    bytes.extend_from_slice(&0u32.to_le_bytes());
    bytes.extend_from_slice(&0x20u32.to_le_bytes());
    bytes.extend_from_slice(&(name_bytes as u16).to_le_bytes());
    bytes.extend_from_slice(&60u16.to_le_bytes());
    for unit in units {
        bytes.extend_from_slice(&unit.to_le_bytes());
    }
    bytes.resize(len, 0);
    bytes
}

fn record(file_ref: u64, parent_ref: u64, usn: i64, reason: u32, name: &str) -> Vec<u8> {
    let units: Vec<u16> = name.encode_utf16().collect();
    raw_record(file_ref, parent_ref, usn, reason, &units)
}

fn change(file_ref: u64, parent_ref: u64, reason: u32, name: &str) -> UsnRecord {
    UsnRecord { file_ref, parent_ref, usn: 0, reason, attributes: 0, name: String::from(name) }
}

#[test]
fn the_reasons_are_those_of_the_journal() {
    assert_eq!(USN_REASON_FILE_CREATE, 0x100);
    assert_eq!(USN_REASON_FILE_DELETE, 0x200);
    assert_eq!(USN_REASON_RENAME_OLD_NAME, 0x1000);
    assert_eq!(USN_REASON_RENAME_NEW_NAME, 0x2000);
    assert_eq!(
        REASON_MASK,
        USN_REASON_FILE_CREATE | USN_REASON_FILE_DELETE | USN_REASON_RENAME_NEW_NAME
            | USN_REASON_RENAME_OLD_NAME
    );
    assert_eq!(ADDING_REASONS, USN_REASON_FILE_CREATE | USN_REASON_RENAME_NEW_NAME);
}

#[test]
fn a_buffer_is_a_cursor_and_records() {
    let mut data = 0x1122_3344_5566_7788u64.to_le_bytes().to_vec();
    data.extend(record(100, 5, 4096, USN_REASON_FILE_CREATE, "report.docx"));
    data.extend(record(101, 100, -7, USN_REASON_FILE_DELETE, "\u{00E9}\u{4E2D}\u{1F600}"));
    let batch = read_batch(&data).unwrap();
    assert_eq!(batch.cursor, 0x1122_3344_5566_7788);
    assert_eq!(batch.records.len(), 2);
    let first = &batch.records[0];
    assert_eq!(first.file_ref, 100);
    assert_eq!(first.parent_ref, 5);
    assert_eq!(first.usn, 4096);
    assert_eq!(first.reason, USN_REASON_FILE_CREATE);
    assert_eq!(first.attributes, 0x20);
    assert_eq!(first.name, "report.docx");
    let second = &batch.records[1];
    assert_eq!(second.file_ref, 101);
    assert_eq!(second.parent_ref, 100);
    assert_eq!(second.usn, -7);
    assert_eq!(second.reason, USN_REASON_FILE_DELETE);
    assert_eq!(second.name, "\u{00E9}\u{4E2D}\u{1F600}");
}

#[test]
fn a_buffer_of_the_cursor_alone_holds_no_record() {
    let data = 42u64.to_le_bytes();
    let batch = read_batch(&data).unwrap();
    assert_eq!(batch.cursor, 42);
    assert!(batch.records.is_empty());
}

#[test]
fn a_buffer_shorter_than_the_cursor_is_not_read() {
    assert!(read_batch(&[]).is_none());
    assert!(read_batch(&[0; 7]).is_none());
}

#[test]
fn a_name_that_is_not_utf16_is_unknown() {
    let mut data = 0u64.to_le_bytes().to_vec();
    data.extend(raw_record(1, 2, 3, USN_REASON_FILE_CREATE, &[0x0061, 0xD800, 0x0062]));
    let batch = read_batch(&data).unwrap();
    assert_eq!(batch.records[0].name, "unknown");
}

#[test]
fn a_name_of_an_odd_number_of_bytes_loses_the_last_byte() {
    let mut bytes = record(1, 2, 3, USN_REASON_FILE_CREATE, "abc");
    bytes[56] = 5;
    let (read, _) = read_change(&bytes, 0).unwrap();
    assert_eq!(read.name, "ab");
}

#[test]
fn a_record_that_runs_behind_the_buffer_is_not_read() {
    let whole = record(1, 2, 3, USN_REASON_FILE_CREATE, "name");
    for cut in 1..whole.len() {
        let mut data = 0u64.to_le_bytes().to_vec();
        data.extend(&whole[..cut]);
        assert!(read_batch(&data).is_none());
    }
}

#[test]
fn a_record_without_length_is_not_read() {
    let mut bytes = record(1, 2, 3, USN_REASON_FILE_CREATE, "name");
    bytes[0] = 0;
    assert!(read_change(&bytes, 0).is_none());
    bytes[0] = 59;
    assert!(read_change(&bytes, 0).is_none());
    let mut data = 0u64.to_le_bytes().to_vec();
    data.extend(bytes);
    assert!(read_batch(&data).is_none());
}

#[test]
fn a_name_that_runs_behind_its_record_is_not_read() {
    let mut bytes = record(1, 2, 3, USN_REASON_FILE_CREATE, "name");
    bytes[56] = 200;
    assert!(read_change(&bytes, 0).is_none());
    let mut bytes = record(1, 2, 3, USN_REASON_FILE_CREATE, "name");
    bytes[58] = 66;
    assert!(read_change(&bytes, 0).is_none());
}

#[test]
fn a_record_says_where_the_next_one_begins() {
    let mut data = vec![0xEE; 8];
    data.extend(record(1, 2, 3, USN_REASON_FILE_CREATE, "a"));
    data.extend(record(4, 5, 6, USN_REASON_FILE_CREATE, "twelve chars"));
    let (first, next) = read_change(&data, 8).unwrap();
    assert_eq!(first.name, "a");
    assert_eq!(next, 8 + 64);
    let (second, end) = read_change(&data, next).unwrap();
    assert_eq!(second.name, "twelve chars");
    assert_eq!(end, 8 + 64 + 88);
    assert_eq!(end, data.len());
}

#[test]
fn units_are_read_low_byte_first() {
    let data = [0xEE, 0x34, 0x12, 0x78, 0x56, 0xEE];
    assert_eq!(read_units(&data, 1, 2), vec![0x1234, 0x5678]);
    assert_eq!(read_units(&data, 1, 0), Vec::<u16>::new());
}

#[test]
fn a_name_record_holds_a_path() {
    let path = "\\Users\\alice";
    let units: Vec<u16> = path.encode_utf16().collect();
    let mut data = ((units.len() * 2) as u32).to_le_bytes().to_vec();
    for unit in &units {
        data.extend_from_slice(&unit.to_le_bytes());
    }
    data.resize(4 + 520, 0);
    assert_eq!(read_name_info(&data), path);
}

#[test]
fn a_name_record_that_cannot_be_read_holds_the_empty_path() {
    assert_eq!(read_name_info(&[]), "");
    assert_eq!(read_name_info(&[2, 0, 0]), "");
    assert_eq!(read_name_info(&[4, 0, 0, 0, 0x61, 0]), "");
    assert_eq!(read_name_info(&[2, 0, 0, 0, 0x00, 0xD8]), "");
    assert_eq!(read_name_info(&[2, 0, 0, 0, 0x61, 0]), "a");
    assert_eq!(read_name_info(&[0, 0, 0, 0]), "");
}

#[test]
fn created_and_renamed_to_add_and_the_others_remove() {
    assert!(is_adding(USN_REASON_FILE_CREATE));
    assert!(is_adding(USN_REASON_RENAME_NEW_NAME));
    assert!(is_adding(USN_REASON_FILE_CREATE | USN_REASON_FILE_DELETE));
    assert!(is_adding(USN_REASON_RENAME_NEW_NAME | 0x8000_0000));
    assert!(!is_adding(USN_REASON_FILE_DELETE));
    assert!(!is_adding(USN_REASON_RENAME_OLD_NAME));
    assert!(!is_adding(0));
}

#[test]
fn a_change_puts_a_file_in_or_takes_it_out() {
    let mut tree = FileTree::new();
    apply_record(&mut tree, change(5, 0, USN_REASON_FILE_CREATE, "C:"));
    apply_record(&mut tree, change(10, 5, USN_REASON_FILE_CREATE, "Old.txt"));
    assert_eq!(tree.get_path(10), Some(String::from("C:\\Old.txt\\")));
    assert_eq!(tree.get(10).unwrap().rank, 0);
    assert_eq!(tree.get(10).unwrap().quick_filter, 0x1000_0000 | (1 << 14) | (1 << 11) | (1 << 3) | (1 << 19) | (1 << 23));
    apply_record(&mut tree, change(10, 5, USN_REASON_RENAME_OLD_NAME, "Old.txt"));
    assert!(tree.get(10).is_none());
    apply_record(&mut tree, change(10, 5, USN_REASON_RENAME_NEW_NAME, "new.txt"));
    assert_eq!(tree.get(10).unwrap().name, "new.txt");
    apply_record(&mut tree, change(10, 5, USN_REASON_FILE_DELETE, "new.txt"));
    assert!(tree.get(10).is_none());
    assert_eq!(tree.len(), 1);
}

#[test]
fn a_file_with_too_long_a_name_does_not_enter() {
    let mut tree = FileTree::new();
    apply_record(&mut tree, change(10, 5, USN_REASON_FILE_CREATE, "short"));
    apply_record(&mut tree, change(10, 5, USN_REASON_FILE_CREATE, &"x".repeat(70_000)));
    assert_eq!(tree.get(10).unwrap().name, "short");
}

fn stretch() -> Vec<UsnRecord> {
    vec![
        change(10, 5, USN_REASON_FILE_CREATE, "a"),
        change(11, 5, USN_REASON_FILE_CREATE, "b"),
        change(10, 5, USN_REASON_RENAME_OLD_NAME, "a"),
        change(10, 11, USN_REASON_RENAME_NEW_NAME, "c"),
        change(12, 5, USN_REASON_FILE_DELETE, "gone"),
        change(13, 5, USN_REASON_FILE_CREATE, "d"),
        change(13, 5, USN_REASON_FILE_DELETE, "d"),
        change(14, 5, USN_REASON_FILE_DELETE, "e"),
        change(14, 5, USN_REASON_FILE_CREATE, "e"),
    ]
}

fn listing(tree: &FileTree) -> Vec<(u64, u64, String)> {
    tree.entries().iter().map(|r| (r.0, r.1.parent_id, r.1.name.clone())).collect()
}

#[test]
fn changes_are_applied_in_their_order() {
    let mut tree = FileTree::new();
    tree.insert(5, String::from("C:"), 0);
    tree.insert(12, String::from("gone"), 5);
    apply_records(&mut tree, stretch());
    assert_eq!(
        listing(&tree),
        vec![
            (5, 0, String::from("C:")),
            (10, 11, String::from("c")),
            (11, 5, String::from("b")),
            (14, 5, String::from("e")),
        ]
    );
}

#[test]
fn a_stretch_applied_twice_is_a_stretch_applied_once() {
    let mut once = FileTree::new();
    once.insert(5, String::from("C:"), 0);
    once.insert(12, String::from("gone"), 5);
    once.insert(13, String::from("was there"), 5);
    let mut twice = FileTree::new();
    twice.insert(5, String::from("C:"), 0);
    twice.insert(12, String::from("gone"), 5);
    twice.insert(13, String::from("was there"), 5);
    apply_records(&mut once, stretch());
    apply_records(&mut twice, stretch());
    apply_records(&mut twice, stretch());
    assert_eq!(listing(&once), listing(&twice));
}

#[test]
fn a_directory_is_told_by_its_attribute() {
    assert_eq!(FILE_ATTRIBUTE_DIRECTORY, 0x10);
    assert!(is_dir(0x10));
    assert!(is_dir(0x16));
    assert!(is_dir(u32::MAX));
    assert!(!is_dir(0));
    assert!(!is_dir(0x20));
    assert!(!is_dir(0xFFFF_FFEF));
}
