use motif_bench::genome::Chromosome;
use motif_bench::reconcile::{hits_agree, reconcile_hits, reconcile_line, ReconcileError};

fn index() -> Vec<Chromosome> {
    vec![
        Chromosome { name: "chrTest".to_string(), start: 0 },
        Chromosome { name: "chr2".to_string(), start: 10 },
    ]
}

fn lines(ls: &[&str]) -> Vec<String> {
    ls.iter().map(|l| l.to_string()).collect()
}

#[test]
fn local_position_maps_to_flat_offset() {
    assert_eq!(reconcile_line("chrTest,1", &index()), Ok(0));
    assert_eq!(reconcile_line("chr2,3", &index()), Ok(12));
}

#[test]
fn bare_number_is_flat_offset() {
    assert_eq!(reconcile_line("42", &index()), Ok(42));
}

#[test]
fn surrounding_whitespace_is_ignored() {
    assert_eq!(reconcile_line("  7 \r", &index()), Ok(7));
    assert_eq!(reconcile_line("\tchr2,1\r", &index()), Ok(10));
}

#[test]
fn unknown_chromosome_is_an_error() {
    assert_eq!(reconcile_line("chrX,5", &index()), Err(ReconcileError::UnknownChromosome));
}

#[test]
fn malformed_number_is_an_error() {
    assert_eq!(reconcile_line("chr2,x", &index()), Err(ReconcileError::BadNumber));
    assert_eq!(reconcile_line("chr2,", &index()), Err(ReconcileError::BadNumber));
    assert_eq!(reconcile_line("abc", &index()), Err(ReconcileError::BadNumber));
    assert_eq!(
        reconcile_line("99999999999999999999999", &index()),
        Err(ReconcileError::BadNumber)
    );
}

#[test]
fn position_zero_before_genome_start_is_out_of_range() {
    assert_eq!(reconcile_line("chrTest,0", &index()), Err(ReconcileError::OutOfRange));
    assert_eq!(reconcile_line("chr2,0", &index()), Ok(9));
}

#[test]
fn flat_offset_past_usize_is_out_of_range() {
    let line = format!("chr2,{}", usize::MAX);
    assert_eq!(reconcile_line(&line, &index()), Err(ReconcileError::OutOfRange));
}

#[test]
fn reconcile_hits_skips_blank_lines() {
    let r = reconcile_hits(&lines(&["chrTest,1", "", "  ", "chr2,2", "3"]), &index());
    assert_eq!(r, Ok(vec![0, 11, 3]));
}

#[test]
fn reconcile_hits_reports_first_bad_line() {
    let r = reconcile_hits(&lines(&["chrTest,1", "chrZ,1", "x"]), &index());
    assert_eq!(r, Err(ReconcileError::UnknownChromosome));
}

#[test]
fn agreement_ignores_order() {
    assert!(hits_agree(&vec![4, 0, 7], &vec![0, 7, 4]));
    assert!(hits_agree(&vec![], &vec![]));
}

#[test]
fn wrong_count_is_rejected() {
    assert!(!hits_agree(&vec![0, 4], &vec![0]));
    assert!(!hits_agree(&vec![0, 4], &vec![0, 4, 4]));
}

#[test]
fn wrong_element_is_rejected() {
    assert!(!hits_agree(&vec![0, 4], &vec![0, 5]));
    assert!(!hits_agree(&vec![1, 1, 2], &vec![1, 2, 2]));
}

#[test]
fn nameless_line_does_not_match_nameless_header() {
    let chs = vec![Chromosome { name: String::new(), start: 0 }];
    assert_eq!(reconcile_line(",5", &chs), Err(ReconcileError::UnknownChromosome));
}

#[test]
fn leading_plus_is_accepted() {
    assert_eq!(reconcile_line("+5", &index()), Ok(5));
    assert_eq!(reconcile_line("chr2,+3", &index()), Ok(12));
    assert_eq!(reconcile_line("+", &index()), Err(ReconcileError::BadNumber));
    assert_eq!(reconcile_line("++5", &index()), Err(ReconcileError::BadNumber));
    assert_eq!(reconcile_line("chr2,+", &index()), Err(ReconcileError::BadNumber));
}

#[test]
fn all_unicode_whitespace_is_trimmed() {
    assert_eq!(reconcile_line("\u{b}7\u{a0}", &index()), Ok(7));
    assert_eq!(reconcile_line("\u{3000}chr2,1\u{c}", &index()), Ok(10));
    assert_eq!(reconcile_line("\u{85}\u{2028}9\u{202f}", &index()), Ok(9));
}

#[test]
fn whitespace_only_lines_are_skipped() {
    let r = reconcile_hits(&lines(&["\u{a0}", "\u{b}\u{c}", "+4"]), &index());
    assert_eq!(r, Ok(vec![4]));
}
