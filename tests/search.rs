use picomap::fm_index::build_fm_index;
use picomap::search::{complete_search, partial_search};

#[test]
fn exact_search_finds_attta_once() {
    let fm = build_fm_index("GATTACA$").unwrap();
    let (hits, len) = complete_search("ATTA", &fm);
    assert_eq!(hits, vec![1]);
    assert_eq!(len, 4);
}

#[test]
fn exact_search_finds_every_occurrence() {
    let fm = build_fm_index("ACGTACGTACGT$").unwrap();
    let (mut hits, len) = complete_search("ACGT", &fm);
    hits.sort();
    assert_eq!(hits, vec![0, 4, 8]);
    assert_eq!(len, 4);
}

#[test]
fn exact_search_fails_closed() {
    let fm = build_fm_index("GATTACA$").unwrap();
    assert_eq!(complete_search("TTT", &fm), (vec![], 0));
    assert_eq!(complete_search("ANA", &fm), (vec![], 0));
    assert_eq!(complete_search("", &fm), (vec![], 0));
}

#[test]
fn partial_search_full_match() {
    let fm = build_fm_index("ACGTACGTACGT$").unwrap();
    let (mut hits, len) = partial_search("ACGT", &fm);
    hits.sort();
    assert_eq!(hits, vec![0, 4, 8]);
    assert_eq!(len, 4);
}

#[test]
fn partial_search_stops_before_a_single_row() {
    // "CA" ends two suffixes' worth of rows for "A" then narrows to one row.
    let fm = build_fm_index("GATTACA$").unwrap();
    let (mut hits, len) = partial_search("CA", &fm);
    hits.sort();
    assert_eq!(len, 1);
    assert_eq!(hits, vec![1, 4, 6]);
}

#[test]
fn partial_search_length_is_bounded() {
    let fm = build_fm_index("GATTACAGATTACAGGGTTTCCAAC$").unwrap();
    for q in ["A", "GATTACA", "TTTTTT", "CCAACG", "ACGTNACG", "N", "GGG"] {
        let (_, len) = partial_search(q, &fm);
        assert!(len >= 1 && len as usize <= q.len(), "{}", q);
    }
}

#[test]
fn partial_search_of_empty_query() {
    let fm = build_fm_index("GATTACA$").unwrap();
    assert_eq!(partial_search("", &fm), (vec![], 0));
}
