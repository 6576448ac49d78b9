use ntfs_search::text::{contains_bytes, extension, make_filter, match_bytes, match_str, STAR};

#[test]
fn a_stretch_is_found_wherever_it_stands() {
    assert!(contains_bytes(b"report.docx", b"report"));
    assert!(contains_bytes(b"report.docx", b".docx"));
    assert!(contains_bytes(b"report.docx", b"ort.d"));
    assert!(contains_bytes(b"report.docx", b"report.docx"));
    assert!(!contains_bytes(b"report.docx", b"report.docxx"));
    assert!(!contains_bytes(b"report.docx", b"txt"));
    assert!(!contains_bytes(b"aab", b"abb"));
    assert!(contains_bytes(b"aaab", b"aab"));
}

#[test]
fn the_empty_stretch_is_found_everywhere() {
    assert!(contains_bytes(b"abc", b""));
    assert!(contains_bytes(b"", b""));
    assert!(!contains_bytes(b"", b"a"));
}

#[test]
fn the_star_is_the_byte_0x2a() {
    assert_eq!(STAR, b'*');
}

#[test]
fn every_fragment_of_a_query_must_occur() {
    assert!(match_bytes(b"report.docx", b"report"));
    assert!(match_bytes(b"report.docx", b"*.docx"));
    assert!(match_bytes(b"report.docx", b"rep*docx"));
    assert!(match_bytes(b"report.docx", b"rep*.d*x"));
    assert!(!match_bytes(b"report.docx", b"rep*.txt"));
    assert!(!match_bytes(b"report.txt", b"*.docx"));
    assert!(!match_bytes(b"report.docx", b"xyz*report"));
}

#[test]
fn fragments_may_occur_in_any_order() {
    assert!(match_bytes(b"report.docx", b"docx*report"));
    assert!(match_bytes(b"abc", b"c*a"));
}

#[test]
fn stars_alone_and_the_empty_query_match_every_name() {
    assert!(match_bytes(b"report.docx", b""));
    assert!(match_bytes(b"report.docx", b"*"));
    assert!(match_bytes(b"report.docx", b"***"));
    assert!(match_bytes(b"", b"*"));
    assert!(!match_bytes(b"", b"*a"));
}

#[test]
fn names_are_compared_in_lower_case() {
    assert!(match_str("REPORT.docx", "report"));
    assert!(match_str("Report.DOCX", "*.docx"));
    assert!(!match_str("report.docx", "REPORT"));
    assert!(match_str("\u{00C9}t\u{00E9}.txt", "\u{00E9}t\u{00E9}"));
}

#[test]
fn a_filter_has_one_bit_for_each_letter() {
    assert_eq!(make_filter(b""), 0);
    assert_eq!(make_filter(b"a"), 1);
    assert_eq!(make_filter(b"z"), 1 << 25);
    assert_eq!(make_filter(b"abc"), 0b111);
    assert_eq!(make_filter(b"cab"), 0b111);
    assert_eq!(make_filter(b"aaa"), 1);
}

#[test]
fn a_filter_has_one_bit_for_each_other_kind_of_byte() {
    assert_eq!(make_filter(b"0"), 0x400_0000);
    assert_eq!(make_filter(b"0123456789"), 0x400_0000);
    assert_eq!(make_filter("\u{00E9}".as_bytes()), 0x800_0000);
    assert_eq!(make_filter(b"."), 0x1000_0000);
    assert_eq!(make_filter(b"A"), 0x1000_0000);
    assert_eq!(make_filter(b"*"), 0);
    assert_eq!(make_filter(b"c:"), 0x1000_0004);
    assert_eq!(make_filter(b"*.docx"), 0x1000_0000 | (1 << 3) | (1 << 14) | (1 << 2) | (1 << 23));
}

#[test]
fn the_filter_of_a_matching_name_has_every_bit_of_the_query() {
    let names: [&[u8]; 4] = [b"report.docx", b"notes 2024.txt", b"a", b"x-y_z.tar.gz"];
    let queries: [&[u8]; 6] = [b"report", b"*.txt", b"2024*notes", b"a", b"*", b"tar*gz"];
    for name in names {
        for query in queries {
            if match_bytes(name, query) {
                let query_filter = make_filter(query);
                assert_eq!(make_filter(name) & query_filter, query_filter);
            }
        }
    }
}

#[test]
fn the_extension_is_the_text_behind_the_last_dot() {
    assert_eq!(extension("a.txt"), "txt");
    assert_eq!(extension("report.docx"), "docx");
    assert_eq!(extension("archive.tar.gz"), "gz");
    assert_eq!(extension(".gitignore"), "gitignore");
    assert_eq!(extension("Report.DOCX"), "DOCX");
    assert_eq!(extension("\u{00E9}t\u{00E9}.\u{4E2D}\u{6587}"), "\u{4E2D}\u{6587}");
}

#[test]
fn a_name_without_a_dot_has_no_extension() {
    assert_eq!(extension(""), "");
    assert_eq!(extension("Makefile"), "");
    assert_eq!(extension("ends."), "");
    assert_eq!(extension("."), "");
    assert_eq!(extension("a.b."), "");
    assert_eq!(extension("\u{00E9}t\u{00E9}"), "");
}
