use motif_bench::oracle::{find_hits, reverse_complement};

#[test]
fn reverse_complement_of_palindrome_is_itself() {
    assert_eq!(reverse_complement(b"ACGT"), b"ACGT".to_vec());
}

#[test]
fn reverse_complement_reverses_and_complements() {
    assert_eq!(reverse_complement(b"AACG"), b"CGTT".to_vec());
}

#[test]
fn reverse_complement_unknown_base_becomes_sentinel() {
    assert_eq!(reverse_complement(b"ANC"), vec![b'G', 0u8, b'T']);
}

#[test]
fn reverse_complement_of_empty_is_empty() {
    assert_eq!(reverse_complement(b""), Vec::<u8>::new());
}

#[test]
fn motif_twice_with_gap_gives_two_hits() {
    let motif = b"AACG";
    let mut genome = motif.to_vec();
    genome.push(b'T');
    genome.extend_from_slice(motif);
    assert_eq!(find_hits(motif, &genome), vec![0, motif.len() + 1]);
}

#[test]
fn last_window_is_scanned() {
    assert_eq!(find_hits(b"GT", b"AAGT"), vec![2]);
    assert_eq!(find_hits(b"ACGT", b"ACGT"), vec![0]);
}

#[test]
fn planted_reverse_complement_is_found() {
    // "CGTT" is the reverse complement of "AACG"; the motif itself is absent.
    assert_eq!(find_hits(b"AACG", b"GGCGTTGG"), vec![2]);
}

#[test]
fn palindromic_motif_reported_once_per_position() {
    assert_eq!(find_hits(b"ACGT", b"ACGTACGT"), vec![0, 4]);
}

#[test]
fn no_hit_in_unrelated_genome() {
    assert_eq!(find_hits(b"AAAA", b"CCCCCCCC"), Vec::<usize>::new());
}

#[test]
fn overlapping_hits_all_reported() {
    assert_eq!(find_hits(b"AA", b"AAAAA"), vec![0, 1, 2, 3]);
}

#[test]
fn empty_motif_hits_every_offset() {
    assert_eq!(find_hits(b"", b"AC"), vec![0, 1, 2]);
}

#[test]
fn unknown_base_never_matches_through_sentinel() {
    assert_eq!(find_hits(b"N", &[0u8]), Vec::<usize>::new());
    // The reverse complement of "AN" would read NUL, T; it must not match.
    assert_eq!(find_hits(b"AN", &[0u8, b'T', b'A']), Vec::<usize>::new());
}

#[test]
fn unknown_base_still_matches_forward() {
    assert_eq!(find_hits(b"AN", b"CANAN"), vec![1, 3]);
}
