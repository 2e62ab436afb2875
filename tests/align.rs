use picomap::align::{fitting_align, global_align, QP};
use picomap::cigar::{cigar_string, push_decimal, run_lengths};
use picomap::mapper::{reference_align, MapQuery};

fn problem(x: &str, y: &str) -> QP {
    QP {
        problem_name: "p".to_string(),
        query_x: x.to_string(),
        query_y: y.to_string(),
        score: 0,
        y_start: 0,
        y_end: 0,
        cigar: String::new(),
    }
}

fn runs(cigar: &str) -> Vec<(usize, char)> {
    let mut out = Vec::new();
    let mut num = 0usize;
    for c in cigar.chars() {
        if let Some(d) = c.to_digit(10) {
            num = num * 10 + d as usize;
        } else {
            out.push((num, c));
            num = 0;
        }
    }
    out
}

#[test]
fn global_self_alignment_is_free() {
    let r = global_align(&problem("ACGTTGCA", "ACGTTGCA"), 0, 0);
    assert_eq!(r, (0, 0, 8, "8=".to_string()));
}

#[test]
fn global_alignment_with_a_mismatch() {
    let r = global_align(&problem("ACGT", "AGGT"), -1, -2);
    assert_eq!(r, (-1, 0, 4, "1=1X2=".to_string()));
}

#[test]
fn global_alignment_with_a_gap() {
    let r = global_align(&problem("ACGT", "AGT"), -3, -1);
    assert_eq!(r.0, -1);
    assert_eq!(r.3, "1=1I2=");
}

#[test]
fn global_cigar_spans_both_sequences() {
    let cases = [("ACGTACGT", "ACTTAGT"), ("AAAA", "TTTTTTT"), ("GATTACA", "GCATGCT"), ("A", "CCCC")];
    for (x, y) in cases {
        let r = global_align(&problem(x, y), -1, -1);
        let rs = runs(&r.3);
        let qx: usize = rs.iter().filter(|(_, c)| "=XI".contains(*c)).map(|(k, _)| k).sum();
        let qy: usize = rs.iter().filter(|(_, c)| "=XD".contains(*c)).map(|(k, _)| k).sum();
        assert_eq!(qx, x.len());
        assert_eq!(qy, y.len());
    }
}

#[test]
fn fitting_alignment_finds_the_query_inside() {
    let r = fitting_align(&problem("GTA", "AAGTAAA"), -1, -1);
    assert_eq!(r, (0, 2, 5, "3=".to_string()));
}

#[test]
fn fitting_alignment_ties_take_the_first_column() {
    let r = fitting_align(&problem("AC", "ACTAC"), -1, -1);
    assert_eq!(r, (0, 0, 2, "2=".to_string()));
}

#[test]
fn fitting_alignment_against_empty_reference() {
    let r = fitting_align(&problem("ACG", ""), -1, -2);
    assert_eq!(r, (-6, 0, 0, "3I".to_string()));
}

#[test]
fn reference_align_uses_fitting_mode() {
    let q = MapQuery {
        problem_name: "r".to_string(),
        query: "CGTA".to_string(),
        score: 0,
        ref_start: vec![],
        cigar: vec![],
    };
    let r = reference_align(&q, "TTCGAATT", -1, -2);
    assert_eq!(r, (-1, 2, 6, "2=1X1=".to_string()));
}

#[test]
fn cigar_collapses_runs() {
    let ops: Vec<char> = "===XXI=DDDDDDDDDDDD".chars().collect();
    assert_eq!(run_lengths(&ops), vec![(3, '='), (2, 'X'), (1, 'I'), (1, '='), (12, 'D')]);
    assert_eq!(cigar_string(&ops), "3=2X1I1=12D");
    assert_eq!(cigar_string(&vec![]), "");
}

#[test]
fn decimal_digits() {
    let mut s = String::from("n=");
    push_decimal(&mut s, 0);
    push_decimal(&mut s, 7);
    push_decimal(&mut s, 1203);
    assert_eq!(s, "n=071203");
}
