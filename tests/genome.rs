use motif_bench::genome::{chromosome_offset, read_fasta, Chromosome, Genome};

fn lines(ls: &[&str]) -> Vec<String> {
    ls.iter().map(|l| l.to_string()).collect()
}

fn names(g: &Genome) -> Vec<(String, usize)> {
    g.chromosomes.iter().map(|c| (c.name.clone(), c.start)).collect()
}

#[test]
fn header_without_space_names_whole_remainder() {
    let g = read_fasta(&lines(&[">chrTest", "ACGT"]));
    assert_eq!(names(&g), vec![("chrTest".to_string(), 0)]);
}

#[test]
fn header_with_space_names_first_token() {
    let g = read_fasta(&lines(&[">chr2L some description here", "ACGT"]));
    assert_eq!(names(&g), vec![("chr2L".to_string(), 0)]);
}

#[test]
fn sequence_lines_are_concatenated_and_offsets_recorded() {
    let g = read_fasta(&lines(&[">a", "ACG", "TT", ">b x", "GG", ">c"]));
    assert_eq!(g.nucleotides, b"ACGTTGG".to_vec());
    assert_eq!(
        names(&g),
        vec![("a".to_string(), 0), ("b".to_string(), 5), ("c".to_string(), 7)]
    );
}

#[test]
fn bare_marker_gives_empty_name() {
    let g = read_fasta(&lines(&[">", "AC"]));
    assert_eq!(names(&g), vec![(String::new(), 0)]);
}

#[test]
fn empty_source_gives_empty_genome() {
    let g = read_fasta(&Vec::new());
    assert!(g.chromosomes.is_empty());
    assert!(g.nucleotides.is_empty());
}

#[test]
fn chromosome_offset_first_match_wins() {
    let chs = vec![
        Chromosome { name: "a".to_string(), start: 0 },
        Chromosome { name: "b".to_string(), start: 10 },
        Chromosome { name: "b".to_string(), start: 20 },
    ];
    assert_eq!(chromosome_offset("b", &chs), Some(10));
    assert_eq!(chromosome_offset("a", &chs), Some(0));
    assert_eq!(chromosome_offset("c", &chs), None);
    assert_eq!(chromosome_offset("", &chs), None);
}

#[test]
fn add_line_appends_one_byte_per_char() {
    let mut g = Genome::new();
    g.add_line(">x");
    g.add_line("acgt");
    assert_eq!(g.nucleotides, b"acgt".to_vec());
    assert_eq!(names(&g), vec![("x".to_string(), 0)]);
}

#[test]
fn empty_name_never_matches() {
    let chs = vec![
        Chromosome { name: String::new(), start: 0 },
        Chromosome { name: "a".to_string(), start: 3 },
    ];
    assert_eq!(chromosome_offset("", &chs), None);
    assert_eq!(chromosome_offset("a", &chs), Some(3));
}
