use picomap::fm_index::{build_fm_index, build_suffix_array, invert_bwt, occ, split_first_char};
use picomap::suffix_array::{compare, quick_sort};
use picomap::fm_index::is_valid_text;
use picomap::search::is_base_char;
use picomap::text::{chars_of, compare_from};
use std::cmp::Ordering;

fn is_sorted_permutation(text: &str, sa: &[usize]) -> bool {
    let n = text.chars().count();
    let mut seen = vec![false; n];
    for &p in sa {
        if p >= n || seen[p] {
            return false;
        }
        seen[p] = true;
    }
    sa.len() == n && sa.windows(2).all(|w| text[w[0]..] < text[w[1]..])
}

#[test]
fn suffix_array_of_gattaca() {
    assert_eq!(build_suffix_array("GATTACA$"), vec![7, 6, 4, 1, 5, 0, 3, 2]);
}

#[test]
fn suffix_array_is_sorted_permutation() {
    for text in ["$", "A$", "ACGTACGTACGT$", "TTTTTTTT$", "GATTACAGATTACACCGGTTAA$"] {
        let sa = build_suffix_array(text);
        assert!(is_sorted_permutation(text, &sa), "{}", text);
    }
}

#[test]
fn suffix_array_of_empty_text() {
    assert_eq!(build_suffix_array(""), Vec::<usize>::new());
}

#[test]
fn quick_sort_sorts_suffix_positions() {
    let text = "CAGTCAGTTTACG$";
    let mut sa: Vec<usize> = (0..text.len()).rev().collect();
    quick_sort::<usize>(&mut sa, text);
    assert!(is_sorted_permutation(text, &sa));
}

#[test]
fn compare_orders_like_str() {
    assert_eq!(compare("ACG", "ACT"), Ordering::Less);
    assert_eq!(compare("T", "ACT"), Ordering::Greater);
    assert_eq!(compare("AC", "ACT"), Ordering::Less);
    assert_eq!(compare("ACT", "ACT"), Ordering::Equal);
    assert_eq!(compare("$", "A"), Ordering::Less);
}

#[test]
fn index_of_gattaca() {
    let fm = build_fm_index("GATTACA$").unwrap();
    assert_eq!(fm.sa, vec![7, 6, 4, 1, 5, 0, 3, 2]);
    assert_eq!(fm.bwt.iter().collect::<String>(), "ACTGA$TA");
    assert_eq!(fm.first_column, vec![1, 3, 1, 1, 2]);
    assert_eq!(fm.tally.len(), 8);
    assert_eq!(fm.tally[0], vec![0, 1, 0, 0, 0]);
    assert_eq!(fm.tally[7], vec![1, 3, 1, 1, 2]);
}

#[test]
fn tally_rows_never_decrease() {
    let fm = build_fm_index("ACGTTGCAACGTAGCT$").unwrap();
    for i in 1..fm.tally.len() {
        for k in 0..5 {
            assert!(fm.tally[i - 1][k] <= fm.tally[i][k]);
        }
    }
    assert_eq!(fm.tally[fm.tally.len() - 1], fm.first_column);
    let total: u32 = fm.first_column.iter().sum();
    assert_eq!(total as usize, fm.genome.len());
}

#[test]
fn invalid_texts_are_refused() {
    assert!(build_fm_index("").is_none());
    assert!(build_fm_index("ACGT").is_none());
    assert!(build_fm_index("ACNT$").is_none());
    assert!(build_fm_index("AC$T$").is_none());
    assert!(build_fm_index("$").is_some());
}

#[test]
fn bwt_inverts_to_text() {
    for text in ["GATTACA$", "ACGTACGTACGT$", "$", "TGCATGCAAAT$"] {
        let fm = build_fm_index(text).unwrap();
        let back: String = invert_bwt(&fm.bwt, &fm.sa).into_iter().collect();
        assert_eq!(back, text);
    }
}

#[test]
fn occ_reads_tally_columns() {
    let tally = vec![vec![1, 2, 3, 4, 5]];
    assert_eq!(occ(0, 'A', &tally), 2);
    assert_eq!(occ(0, 'C', &tally), 3);
    assert_eq!(occ(0, 'G', &tally), 4);
    assert_eq!(occ(0, 'T', &tally), 5);
    assert_eq!(occ(0, 'N', &tally), 0);
}

#[test]
fn split_first_char_splits() {
    assert_eq!(split_first_char("GAT"), Some(('G', "AT")));
    assert_eq!(split_first_char("G"), Some(('G', "")));
    assert_eq!(split_first_char(""), None);
}

#[test]
fn text_helpers() {
    let a = chars_of("GATTACA");
    assert_eq!(a, vec!['G', 'A', 'T', 'T', 'A', 'C', 'A']);
    assert_eq!(compare_from(&a, 1, &a, 4), Ordering::Greater);
    assert_eq!(compare_from(&a, 4, &a, 6), Ordering::Greater);
    assert_eq!(compare_from(&a, 7, &a, 6), Ordering::Less);
    assert_eq!(compare_from(&a, 3, &a, 3), Ordering::Equal);
    assert!(is_valid_text(&chars_of("ACGT$")));
    assert!(!is_valid_text(&chars_of("ACGT")));
    assert!(is_base_char('G') && !is_base_char('$') && !is_base_char('a'));
}
