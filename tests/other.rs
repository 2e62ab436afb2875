use picomap::assembly::{find_overlap, prefixes, suffixes};
use picomap::fasta::{parse_records, reference_text};
use picomap::lcp::{calc_lcp1, get_lcp};
use picomap::sa_search::{binary_search, binary_search_wrapper, compare, simple_accel, simple_accel_wrapper};
use picomap::fm_index::build_suffix_array;
use std::cmp::Ordering;

#[test]
fn counting_compare() {
    assert_eq!(compare("ACG", "ACT"), (Ordering::Less, 3));
    assert_eq!(compare("AC", "ACGT"), (Ordering::Equal, 2));
    assert_eq!(compare("TA", "GA"), (Ordering::Greater, 1));
    assert_eq!(compare("", "GA"), (Ordering::Equal, 0));
}

#[test]
fn binary_search_bounds_a_query() {
    let genome = "GATTACA$";
    let sa = build_suffix_array(genome);
    let (hits, _, _) = binary_search_wrapper("A", sa.clone(), genome);
    assert_eq!(hits, vec![6, 4, 1]);
    let (hits, _, _) = binary_search_wrapper("TA", sa.clone(), genome);
    assert_eq!(hits, vec![3]);
    let (hits, _, _) = binary_search_wrapper("GG", sa.clone(), genome);
    assert!(hits.is_empty());
    assert_eq!(binary_search("A#", sa.clone(), genome).0, 1);
    assert_eq!(binary_search("A}", sa, genome).0, 4);
}

#[test]
fn accelerated_search_agrees_with_plain_search() {
    let genome = "GATTACAGATTACCAGTTACAGGA$";
    let sa = build_suffix_array(genome);
    for q in ["A", "GATTA", "TTAC", "CCA", "GGG", "TACA", "AG"] {
        let plain = binary_search_wrapper(q, sa.clone(), genome);
        let fast = simple_accel_wrapper(q, sa.clone(), genome);
        assert_eq!(plain.0, fast.0, "{}", q);
        assert!(fast.1 <= plain.1 && fast.2 <= plain.2, "{}", q);
    }
    let (mut hits, _, _) = simple_accel_wrapper("GATTA", sa.clone(), genome);
    hits.sort();
    assert_eq!(hits, vec![0, 7]);
    assert_eq!(simple_accel("A#", sa.clone(), genome).0, binary_search("A#", sa, genome).0);
}

#[test]
fn lcp_of_strings() {
    assert_eq!(get_lcp(vec!["ACGT", "ACGA", "AC"]), 2);
    assert_eq!(get_lcp(vec!["ACGT"]), 4);
    assert_eq!(get_lcp(vec!["ACGT", "TTT"]), 0);
}

#[test]
fn lcp_counts_bytes() {
    assert_eq!(get_lcp(vec!["\u{e9}"]), 2);
    assert_eq!(get_lcp(vec!["a\u{e9}b", "a\u{e9}c"]), 3);
    // Both start with the byte 0xC3 but differ in the second byte.
    assert_eq!(get_lcp(vec!["\u{e9}", "\u{e8}"]), 1);
    assert_eq!(calc_lcp1(&vec![0, 3], "\u{e9}x\u{e9}x"), vec![3]);
}

#[test]
fn comparison_counts_are_reported() {
    let genome = "GATTACAGATTACCAGTTACAGGA$";
    let sa = build_suffix_array(genome);
    let (row, count) = binary_search("GATTA#", sa.clone(), genome);
    assert!(count >= 1);
    let (row2, count2) = simple_accel("GATTA#", sa.clone(), genome);
    assert_eq!(row, row2);
    assert!(count2 <= count);
    // One probe of one row: "A#" against "$" differs at the first pair.
    assert_eq!(binary_search("A#", vec![24], genome), (1, 1));
}

#[test]
fn lcp_of_neighbouring_suffixes() {
    let genome = "GATTACA$";
    let sa = build_suffix_array(genome);
    assert_eq!(calc_lcp1(&sa, genome), vec![0, 1, 1, 0, 0, 0, 1]);
    assert_eq!(calc_lcp1(&vec![], genome), Vec::<i32>::new());
}

#[test]
fn overlaps_between_reads() {
    assert_eq!(find_overlap("ACGTTT", "TTTGCA", 2), 3);
    assert_eq!(find_overlap("ACGTTT", "TTTGCA", 4), 0);
    assert_eq!(find_overlap("AAAA", "AAAA", 1), 4);
    assert_eq!(find_overlap("ACG", "TTT", 0), 0);
}

#[test]
fn prefixes_and_suffixes() {
    assert_eq!(prefixes("ACG"), vec!["", "A", "AC", "ACG"]);
    assert_eq!(suffixes("ACG"), vec!["", "G", "CG", "ACG"]);
    assert_eq!(prefixes(""), vec![""]);
}

#[test]
fn records_of_a_file() {
    let lines: Vec<String> = ["junk", ">r1 first", "ACG", "TT", ">r2", ">r3", "G"]
        .iter()
        .map(|s| s.to_string())
        .collect();
    let recs = parse_records(&lines);
    assert_eq!(
        recs,
        vec![
            ("r1 first".to_string(), "ACGTT".to_string()),
            ("r2".to_string(), String::new()),
            ("r3".to_string(), "G".to_string()),
        ]
    );
    assert_eq!(reference_text(&lines), "junkACGTTG$");
}
