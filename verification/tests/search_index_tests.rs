use ntfs_search::search_index::{FileView, Scan, ScanStep, SearchIndex, SCAN_BATCH};
use std::sync::mpsc;

fn sample() -> SearchIndex {
    let mut index = SearchIndex::new();
    index.add(
        String::from("report.docx"),
        String::from("C:\\Users\\alice\\report.docx"),
        false,
        String::from("docx"),
    );
    index.add(String::from("report.txt"), String::from("C:\\tmp\\report.txt"), false, String::from("txt"));
    index.add(String::from("Notes.DOCX"), String::from("C:\\tmp\\Notes.DOCX"), false, String::new());
    index.add(String::from("tmp"), String::from("C:\\tmp"), true, String::new());
    index
}

fn names(found: &[FileView]) -> Vec<&str> {
    found.iter().map(|file| file.name.as_str()).collect()
}

#[test]
fn a_new_index_finds_nothing() {
    let index = SearchIndex::new();
    assert_eq!(index.len(), 0);
    assert!(index.search("a", 10).is_empty());
    assert!(index.search("", 10).is_empty());
}

#[test]
fn a_query_finds_the_names_that_hold_it() {
    let index = sample();
    assert_eq!(names(&index.search("report", 10)), vec!["report.docx", "report.txt"]);
    assert_eq!(names(&index.search("report.docx", 10)), vec!["report.docx"]);
    assert_eq!(names(&index.search("tmp", 10)), vec!["tmp"]);
    assert!(index.search("nothing", 10).is_empty());
}

#[test]
fn a_star_parts_the_fragments() {
    let index = sample();
    assert_eq!(names(&index.search("*.docx", 10)), vec!["report.docx", "Notes.DOCX"]);
    assert_eq!(names(&index.search("rep*txt", 10)), vec!["report.txt"]);
    assert_eq!(names(&index.search("*", 10)), vec!["report.docx", "report.txt", "Notes.DOCX", "tmp"]);
}

#[test]
fn names_are_compared_in_lower_case_and_the_query_as_it_is() {
    let index = sample();
    assert_eq!(names(&index.search("notes", 10)), vec!["Notes.DOCX"]);
    assert!(index.search("Notes", 10).is_empty());
}

#[test]
fn what_is_found_is_the_file_as_it_was_added() {
    let index = sample();
    let found = index.search("report.docx", 10);
    assert_eq!(found[0].name, "report.docx");
    assert_eq!(found[0].abs_path, "C:\\Users\\alice\\report.docx");
    assert!(!found[0].is_dir);
    assert_eq!(found[0].extension, "docx");
    let found = index.search("tmp", 10);
    assert!(found[0].is_dir);
}

#[test]
fn no_more_than_the_limit_is_found_and_the_first_come_first() {
    let index = sample();
    assert_eq!(names(&index.search("t", 2)), vec!["report.docx", "report.txt"]);
    assert_eq!(names(&index.search("t", 1)), vec!["report.docx"]);
    assert!(index.search("t", 0).is_empty());
    assert_eq!(index.search("t", usize::MAX).len(), 4);
}

#[test]
fn two_files_may_have_one_name() {
    let mut index = SearchIndex::new();
    index.add(String::from("same"), String::from("C:\\a\\same"), false, String::new());
    index.add(String::from("same"), String::from("C:\\b\\same"), false, String::new());
    let found = index.search("same", 10);
    assert_eq!(found.len(), 2);
    assert_eq!(found[0].abs_path, "C:\\a\\same");
    assert_eq!(found[1].abs_path, "C:\\b\\same");
    assert_eq!(index.len(), 2);
}

#[test]
fn a_search_that_nothing_stops_finds_what_search_finds() {
    let index = sample();
    let (_stop_sender, stop_receiver) = mpsc::channel::<()>();
    let found = index.search_until("report", 10, &stop_receiver).unwrap();
    assert_eq!(names(&found), vec!["report.docx", "report.txt"]);
    let found = index.search_until("*", 3, &stop_receiver).unwrap();
    assert_eq!(names(&found), vec!["report.docx", "report.txt", "Notes.DOCX"]);
}

#[test]
fn a_search_whose_sender_is_gone_is_not_stopped() {
    let index = sample();
    let (stop_sender, stop_receiver) = mpsc::channel::<()>();
    drop(stop_sender);
    let found = index.search_until("report", 10, &stop_receiver).unwrap();
    assert_eq!(found.len(), 2);
}

#[test]
fn a_search_that_is_told_to_stop_returns_nothing() {
    let index = sample();
    let (stop_sender, stop_receiver) = mpsc::channel::<()>();
    stop_sender.send(()).unwrap();
    assert!(index.search_until("report", 10, &stop_receiver).is_none());
    assert_eq!(index.search_until("report", 10, &stop_receiver).unwrap().len(), 2);
    stop_sender.send(()).unwrap();
    assert!(SearchIndex::new().search_until("report", 10, &stop_receiver).is_none());
}

fn many() -> SearchIndex {
    let mut index = SearchIndex::new();
    for i in 0..(2 * SCAN_BATCH + 10) {
        index.add(format!("file{}", i), format!("C:\\file{}", i), false, String::new());
    }
    index
}

fn going(step: ScanStep) -> Scan {
    match step {
        ScanStep::Going(scan) => scan,
        _ => panic!("the search has ended"),
    }
}

#[test]
fn a_search_begins_before_the_first_file() {
    let index = sample();
    let scan = index.begin_scan("report", 10);
    assert_eq!(scan.next, 0);
    assert!(scan.found.is_empty());
}

#[test]
fn a_search_goes_on_batch_by_batch() {
    let index = many();
    let last = format!("file{}", 2 * SCAN_BATCH + 9);
    let scan = index.begin_scan(&last, 10);
    let scan = going(index.scan_step(&last, 10, scan, false));
    assert_eq!(scan.next, SCAN_BATCH);
    assert!(scan.found.is_empty());
    let scan = going(index.scan_step(&last, 10, scan, false));
    assert_eq!(scan.next, 2 * SCAN_BATCH);
    assert!(scan.found.is_empty());
    let scan = going(index.scan_step(&last, 10, scan, false));
    assert_eq!(scan.next, 2 * SCAN_BATCH + 10);
    assert_eq!(scan.found.len(), 1);
    match index.scan_step(&last, 10, scan, false) {
        ScanStep::Ended(found) => {
            assert_eq!(found.len(), 1);
            assert_eq!(found[0].abs_path, format!("C:\\file{}", 2 * SCAN_BATCH + 9));
        }
        _ => panic!("the search has not ended"),
    }
}

#[test]
fn a_search_that_has_found_its_limit_finds_no_more() {
    let index = many();
    let scan = index.begin_scan("file", 3);
    let scan = going(index.scan_step("file", 3, scan, false));
    assert_eq!(names(&scan.found), vec!["file0", "file1", "file2"]);
    let scan = going(index.scan_step("file", 3, scan, false));
    let scan = going(index.scan_step("file", 3, scan, false));
    assert_eq!(names(&scan.found), vec!["file0", "file1", "file2"]);
    assert!(matches!(index.scan_step("file", 3, scan, false), ScanStep::Ended(_)));
}

#[test]
fn a_step_that_is_told_to_stop_ends_the_search() {
    let index = many();
    let scan = index.begin_scan("file", 10);
    assert!(matches!(index.scan_step("file", 10, scan, true), ScanStep::Stopped));
    let scan = index.begin_scan("file", 10);
    let scan = going(index.scan_step("file", 10, scan, false));
    assert_eq!(scan.found.len(), 10);
    assert!(matches!(index.scan_step("file", 10, scan, true), ScanStep::Stopped));
    let empty = SearchIndex::new();
    let scan = empty.begin_scan("file", 10);
    assert!(matches!(empty.scan_step("file", 10, scan, true), ScanStep::Stopped));
    let scan = empty.begin_scan("file", 10);
    assert!(matches!(empty.scan_step("file", 10, scan, false), ScanStep::Ended(_)));
}

#[test]
fn a_long_search_is_stopped_by_a_message() {
    let index = many();
    let (stop_sender, stop_receiver) = mpsc::channel::<()>();
    stop_sender.send(()).unwrap();
    assert!(index.search_until("nothing", 10, &stop_receiver).is_none());
    let found = index.search_until("file1", 10, &stop_receiver).unwrap();
    assert_eq!(found.len(), 10);
    assert_eq!(found[0].name, "file1");
    assert_eq!(found[1].name, "file10");
}
