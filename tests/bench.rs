use motif_bench::bench::{measure_iter, random_subsequence, sample_queries, Benchmark, Discard};
use motif_bench::genome::read_fasta;
use motif_bench::oracle::find_hits;
use motif_bench::reconcile::ReconcileError;

fn lines(ls: &[&str]) -> Vec<String> {
    ls.iter().map(|l| l.to_string()).collect()
}

#[test]
fn end_to_end_iteration_is_accepted() {
    let genome = read_fasta(&lines(&[">chrTest", "ACGT", "ACGT"]));
    assert_eq!(genome.nucleotides.len(), 8);
    assert_eq!(find_hits(b"ACGT", &genome.nucleotides), vec![0, 4]);
    let queries: Vec<&[u8]> = vec![&genome.nucleotides[0..4]];
    let r = measure_iter(&genome, &queries, &lines(&["chrTest,1", "chrTest,5"]));
    assert_eq!(r, Ok(vec![0, 4]));
}

#[test]
fn wrong_count_discards_iteration() {
    let genome = read_fasta(&lines(&[">chrTest", "ACGTACGT"]));
    let queries: Vec<&[u8]> = vec![&genome.nucleotides[0..4]];
    let r = measure_iter(&genome, &queries, &lines(&["chrTest,1"]));
    assert_eq!(r, Err(Discard::Mismatch));
}

#[test]
fn wrong_offset_discards_iteration() {
    let genome = read_fasta(&lines(&[">chrTest", "ACGTACGT"]));
    let queries: Vec<&[u8]> = vec![&genome.nucleotides[0..4]];
    let r = measure_iter(&genome, &queries, &lines(&["chrTest,1", "chrTest,4"]));
    assert_eq!(r, Err(Discard::Mismatch));
}

#[test]
fn unreadable_line_discards_iteration() {
    let genome = read_fasta(&lines(&[">chrTest", "ACGTACGT"]));
    let queries: Vec<&[u8]> = vec![&genome.nucleotides[0..4]];
    let r = measure_iter(&genome, &queries, &lines(&["chrOther,1", "chrTest,5"]));
    assert_eq!(r, Err(Discard::Unreadable(ReconcileError::UnknownChromosome)));
}

#[test]
fn batch_hits_are_the_union_over_queries() {
    let genome = read_fasta(&lines(&[">a", "AACCG", ">b", "TTAAC"]));
    let queries: Vec<&[u8]> = vec![&b"AAC"[..], &b"CCG"[..]];
    // "AAC" at 0 and 7, its reverse complement "GTT" at 4.
    // "CCG" at 2, its reverse complement "CGG" nowhere.
    let r = measure_iter(&genome, &queries, &lines(&["a,1", "b,3", "2", "a,5"]));
    assert_eq!(r, Ok(vec![0, 7, 2, 4]));
}

#[test]
fn random_subsequence_is_a_window_of_the_genome() {
    let genome = b"ACGTTGCAAGGCTTAC".to_vec();
    for _ in 0..50 {
        let w = random_subsequence(&genome, 5);
        assert_eq!(w.len(), 5);
        let start = w.as_ptr() as usize - genome.as_ptr() as usize;
        assert!(start < genome.len() - 5);
        assert_eq!(w, &genome[start..start + 5]);
    }
}

#[test]
fn sample_queries_gives_requested_count() {
    let genome = b"ACGTTGCAAGGCTTAC".to_vec();
    let qs = sample_queries(&genome, 4, 7);
    assert_eq!(qs.len(), 7);
    assert!(qs.iter().all(|q| q.len() == 4));
}

#[test]
fn sample_no_queries_from_short_genome() {
    let genome = b"AC".to_vec();
    assert!(sample_queries(&genome, 5, 0).is_empty());
}

#[test]
fn benchmark_counts_only_accepted_iterations() {
    let mut b = Benchmark::new(2);
    assert!(!b.is_done());
    assert!(!b.record(false));
    assert_eq!(b.remaining, 2);
    assert!(b.record(true));
    assert!(b.record(true));
    assert!(b.is_done());
    assert!(!b.record(true));
    assert_eq!(b.remaining, 0);
}
