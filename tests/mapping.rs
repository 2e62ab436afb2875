use picomap::fm_index::build_fm_index;
use picomap::mapper::map_read;
use picomap::seeds::find_seeds;

const REFERENCE: &str = "TGCATCGGATCCTAGGCATTACGGTCAAGTCCGATTGCAACTGGATAGCTTCAGGTACCA$";

#[test]
fn exact_read_maps_to_every_occurrence() {
    let fm = build_fm_index("ACGTACGTACGT$").unwrap();
    let mut hits = map_read("ACGT", &fm, -1, -1);
    hits.sort();
    assert_eq!(
        hits,
        vec![(0, 0, "4=".to_string()), (4, 0, "4=".to_string()), (8, 0, "4=".to_string())]
    );
}

#[test]
fn read_with_one_mismatch_maps_once() {
    let fm = build_fm_index(REFERENCE).unwrap();
    // REFERENCE[19..39] with the symbol at offset 29 changed from T to A.
    let read = "TACGGTCAAGACCGATTGCA";
    assert_eq!(&REFERENCE[19..29], &read[..10]);
    assert_eq!(&REFERENCE[30..39], &read[11..]);
    let hits = map_read(read, &fm, -3, -2);
    assert_eq!(hits, vec![(19, -3, "10=1X9=".to_string())]);
}

#[test]
fn seeds_vote_for_the_true_offset() {
    let fm = build_fm_index(REFERENCE).unwrap();
    let read = "TACGGTCAAGACCGATTGCA";
    assert_eq!(find_seeds(read, &fm), vec![19]);
}

#[test]
fn short_read_is_not_fatal() {
    let fm = build_fm_index(REFERENCE).unwrap();
    let hits = map_read("GGG", &fm, -1, -1);
    assert!(hits.iter().all(|h| h.1 <= 0));
    assert!(find_seeds("", &fm).is_empty());
}

#[test]
fn unmappable_read_gives_empty_or_best_effort() {
    let fm = build_fm_index("ACGT$").unwrap();
    let hits = map_read("NNNNNNNN", &fm, -1, -1);
    assert!(hits.is_empty());
}

#[test]
fn tied_seeds_are_all_kept() {
    // The same twenty symbols at offsets 4 and 34; the read differs from
    // them at its eleventh symbol.
    let reference = "TTTTACGGTCAAGTCCGATTGCAAGGGCCCATATACGGTCAAGTCCGATTGCAACA$";
    let fm = build_fm_index(reference).unwrap();
    let read = "ACGGTCAAGTACGATTGCAA";
    let mut seeds = find_seeds(read, &fm);
    seeds.sort();
    assert_eq!(seeds, vec![4, 34]);
    let mut hits = map_read(read, &fm, -3, -2);
    hits.sort();
    assert_eq!(
        hits,
        vec![(4, -3, "10=1X9=".to_string()), (34, -3, "10=1X9=".to_string())]
    );
}
