use boyermoore::pattern::{
    compile, contains, contains_compiled, contains_pattern, detect_pattern, do_contains, Pattern,
};
use boyermoore::table::BadMatchTable;

#[test]
fn table_for_abc() {
    let table = BadMatchTable::new("ABC");
    assert_eq!(table.get(b'A'), 2);
    assert_eq!(table.get(b'B'), 1);
    assert_eq!(table.get(b'C'), 3);
    assert_eq!(table.get(b'Z'), 3);
    assert_eq!(table.get(0), 3);
}

#[test]
fn table_distinct_bytes() {
    let table = BadMatchTable::new("WXYZ");
    assert_eq!(table.get(b'W'), 3);
    assert_eq!(table.get(b'X'), 2);
    assert_eq!(table.get(b'Y'), 1);
    assert_eq!(table.get(b'Z'), 4);
    assert_eq!(table.get(b'a'), 4);
}

#[test]
fn table_later_occurrence_overwrites() {
    let table = BadMatchTable::new("ABAC");
    assert_eq!(table.get(b'A'), 1);
    assert_eq!(table.get(b'B'), 2);
    assert_eq!(table.get(b'C'), 4);
}

#[test]
fn table_repeated_last_byte_gets_full_length() {
    let table = BadMatchTable::new("AABA");
    assert_eq!(table.get(b'A'), 4);
    assert_eq!(table.get(b'B'), 1);
    assert_eq!(table.get(b'Q'), 4);
}

#[test]
fn table_single_byte() {
    let table = BadMatchTable::new("A");
    assert_eq!(table.get(b'A'), 1);
    assert_eq!(table.get(b'B'), 1);
}

#[test]
fn compiled_pattern_reads_back() {
    let pattern = Pattern::compile("ABC");
    assert_eq!(pattern.len(), 3);
    assert_eq!(pattern.at(0), b'A');
    assert_eq!(pattern.at(2), b'C');
    assert_eq!(pattern.skip_for(b'A'), 2);
    assert_eq!(pattern.skip_for(b'B'), 1);
    assert_eq!(pattern.skip_for(b'C'), 3);
    assert_eq!(pattern.skip_for(b'x'), 3);
}

#[test]
fn finds_pattern_after_prefix() {
    assert!(contains("HAYSTACKABCNEEDLE", "ABC"));
}

#[test]
fn exhausts_haystack_without_match() {
    assert!(!contains("XXXXXX", "ABC"));
}

#[test]
fn haystack_shorter_than_pattern() {
    assert!(!contains("AB", "ABC"));
}

#[test]
fn repeated_prefix_pattern() {
    assert!(contains("AABAACAADAABAABA", "AABA"));
}

#[test]
fn empty_haystack() {
    assert!(!contains("", "A"));
}

#[test]
fn empty_pattern_matches_everywhere() {
    assert!(contains("", ""));
    assert!(contains("ABC", ""));
    assert!(contains_compiled("XYZ", &Pattern::compile("")));
}

#[test]
fn match_at_start_and_end() {
    assert!(contains("ABCXXXX", "ABC"));
    assert!(contains("XXXXABC", "ABC"));
    assert!(contains("ABC", "ABC"));
    assert!(!contains("ABD", "ABC"));
}

#[test]
fn mismatch_left_of_window_end_skips_on_that_byte() {
    // The window "XBC" agrees on "BC", then 'X' skips 3 to the window "ABC".
    assert!(contains("XBCABC", "ABC"));
    assert!(!contains("XBCAB", "ABC"));
}

#[test]
fn repeated_last_byte_occurrence_is_found() {
    // 'B' mismatches with "A" agreed to its right: the window moves by one.
    assert!(contains("BAA", "AA"));
    assert!(contains("AAB", "AA"));
    assert!(contains("XAABA", "ABA"));
    assert!(contains("XXAACA", "AACA"));
    assert!(!contains("BABAB", "AA"));
}

fn brute_force(hay: &str, p: &str) -> bool {
    p.is_empty() || hay.as_bytes().windows(p.len()).any(|w| w == p.as_bytes())
}

#[test]
fn search_agrees_with_brute_force_for_repeated_last_byte() {
    let cases = [
        ("BAA", "AA"),
        ("XAABA", "ABA"),
        ("XXAACA", "AACA"),
        ("AABAACAADAABAABA", "AABA"),
        ("ABABABAB", "BABA"),
        ("ABABABAC", "ABAC"),
        ("XXXXXX", "XX"),
        ("XYXYZXYXYXYX", "XYXYX"),
        ("CACBCC", "CC"),
        ("BAB", "AA"),
        ("AXAXA", "AA"),
    ];
    for (h, p) in cases {
        assert_eq!(contains(h, p), brute_force(h, p), "{} in {}", p, h);
        assert_eq!(contains_compiled(h, &compile(p)), brute_force(h, p), "{} in {}", p, h);
    }
}

#[test]
fn search_agrees_with_brute_force_everywhere() {
    let hays = ["", "A", "AB", "ABA", "AAB", "BAAB", "ABAABAAB", "BBABBABBBA", "ABCABCAB"];
    let pats = ["A", "B", "AA", "AB", "BA", "BB", "ABA", "BAB", "AAB", "BAA", "ABAB", "BAAB", "ABCA", "CAB"];
    for h in hays {
        for p in pats {
            assert_eq!(contains(h, p), brute_force(h, p), "{} in {}", p, h);
        }
    }
}

#[test]
fn bytes_not_characters() {
    assert!(contains("caf\u{e9}!", "\u{e9}"));
    assert!(contains("x\u{e9}", "\u{e9}"));
    assert!(!contains("\u{e8}", "\u{e9}"));
}

#[test]
fn compiled_agrees_with_combined_call() {
    let cases = [
        ("HAYSTACKABCNEEDLE", "ABC"),
        ("XXXXXX", "ABC"),
        ("AB", "ABC"),
        ("AABAACAADAABAABA", "AABA"),
        ("", "A"),
        ("BAA", "AA"),
    ];
    for (h, p) in cases {
        let handle = compile(p);
        assert_eq!(contains(h, p), contains_compiled(h, &handle));
        assert_eq!(contains(h, p), contains_compiled(h, &Pattern::compile(p)));
    }
}

#[test]
fn compiling_twice_gives_alike_handles() {
    let a = compile("NEEDLE");
    let b = compile("NEEDLE");
    for h in ["HAYSTACKNEEDLE", "NEEDL", "xxNEEDLExx", ""] {
        assert_eq!(contains_compiled(h, &a), contains_compiled(h, &b));
    }
    for c in 0..=255u8 {
        assert_eq!(a.skip_for(c), b.skip_for(c));
    }
}

#[test]
fn search_agrees_with_brute_force_for_unique_last_byte() {
    let hay = "ABCABDABCDABCABCDAB";
    for p in ["D", "CD", "ABD", "BCD", "ABCD", "DAB", "ABCABD", "XYZ", "CAB"] {
        assert_eq!(contains(hay, p), brute_force(hay, p), "pattern {}", p);
    }
}

#[test]
fn detect_reports_match_or_skip() {
    let pattern = Pattern::compile("ABC");
    let hay = b"XABCQ";
    assert_eq!(detect_pattern(hay, &pattern, 3, 2), Ok(true));
    assert_eq!(detect_pattern(hay, &pattern, 2, 2), Err(1));
    assert_eq!(detect_pattern(hay, &pattern, 4, 2), Err(3));
    assert_eq!(detect_pattern(hay, &pattern, 1, 0), Ok(true));
}

#[test]
fn detect_takes_matched_bytes_off_the_skip() {
    let abc = Pattern::compile("ABC");
    // "BC" agreed, 'X' skips 3 from the window end: 3 - 2 leaves 1.
    assert_eq!(detect_pattern(b"XBC", &abc, 2, 2), Err(1));
    // 'Q' at the window end, nothing agreed: the full skip.
    assert_eq!(detect_pattern(b"QQQ", &abc, 2, 2), Err(3));
    // The pattern's last byte at a mismatch moves the window by one.
    assert_eq!(detect_pattern(b"ACC", &abc, 2, 2), Err(1));
    let aa = Pattern::compile("AA");
    assert_eq!(detect_pattern(b"BAA", &aa, 1, 1), Err(1));
    assert_eq!(detect_pattern(b"BAA", &aa, 2, 1), Ok(true));
    let wxyz = Pattern::compile("WXYZ");
    // 'Q' absent, one byte agreed: 4 - 1 = 3.
    assert_eq!(detect_pattern(b"WXQZ", &wxyz, 3, 3), Err(3));
}

#[test]
fn contains_pattern_from_window() {
    let pattern = Pattern::compile("ABC");
    assert!(contains_pattern(b"HAYSTACKABCNEEDLE", &pattern, 2));
    assert!(!contains_pattern(b"ABCXXXX", &pattern, 3));
    assert!(!contains_pattern(b"AB", &pattern, 2));
    let aa = Pattern::compile("AA");
    assert!(contains_pattern(b"BAA", &aa, 1));
    assert!(!contains_pattern(b"AAB", &aa, 2));
}

#[test]
fn do_contains_on_compiled() {
    let pattern = Pattern::compile("ABC");
    assert!(do_contains("ZZABC", &pattern));
    assert!(!do_contains("ZZAB", &pattern));
}
