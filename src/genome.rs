//! The genome store: a flat nucleotide buffer and the chromosome index built
//! from the lines of a FASTA source.
use vstd::prelude::*;

verus! {

/// The character that marks a header line.
pub open spec fn is_marker(c: char) -> bool {
    c == '>'
}

/// The bytes that a sequence line contributes: each character cut to one byte.
pub open spec fn line_bytes(line: Seq<char>) -> Seq<u8> {
    line.map_values(|c: char| c as u8)
}

/// The leading run of `s` up to, not including, the first `stop`.
pub open spec fn prefix_before(s: Seq<char>, stop: char) -> Seq<char>
    decreases s.len(),
{
    if s.len() == 0 || s[0] == stop {
        Seq::empty()
    } else {
        seq![s[0]] + prefix_before(s.drop_first(), stop)
    }
}

/// The chromosome name of a header line: its first character (the marker)
/// dropped, then everything up to the first space.
pub open spec fn header_name(line: Seq<char>) -> Seq<char> {
    prefix_before(line.drop_first(), ' ')
}

/// A chromosome index as plain values: names and start offsets.
pub type IndexModel = Seq<(Seq<char>, int)>;

/// What a FASTA source parses to: the chromosome index and the nucleotides.
/// A line that holds the marker anywhere is a header; it opens a chromosome
/// at the current length of the buffer. Any other line is sequence.
pub open spec fn fasta_model(lines: Seq<Seq<char>>) -> (IndexModel, Seq<u8>)
    decreases lines.len(),
{
    if lines.len() == 0 {
        (Seq::empty(), Seq::empty())
    } else {
        let (index, nucleotides) = fasta_model(lines.drop_last());
        let line = lines.last();
        if line.contains('>') {
            (index.push((header_name(line), nucleotides.len() as int)), nucleotides)
        } else {
            (index, nucleotides + line_bytes(line))
        }
    }
}

/// One entry of the chromosome index.
pub struct Chromosome {
    pub name: String,
    /// Offset in the flat buffer of the chromosome's first nucleotide.
    pub start: usize,
}

/// The flat genome and its chromosome index.
pub struct Genome {
    pub chromosomes: Vec<Chromosome>,
    pub nucleotides: Vec<u8>,
}

/// The start offset of the first chromosome named `name`, if any.
pub open spec fn first_named(chromosomes: Seq<Chromosome>, name: Seq<char>) -> Option<usize>
    decreases chromosomes.len(),
{
    if chromosomes.len() == 0 {
        None
    } else if chromosomes[0].name@ == name {
        Some(chromosomes[0].start)
    } else {
        first_named(chromosomes.drop_first(), name)
    }
}

/// The start offset that a lookup of `name` gives: that of the first
/// chromosome so named; an empty name matches no chromosome.
pub open spec fn offset_of(chromosomes: Seq<Chromosome>, name: Seq<char>) -> Option<usize> {
    if name.len() == 0 {
        None
    } else {
        first_named(chromosomes, name)
    }
}

impl Genome {
    /// The chromosome index as names and offsets.
    pub open spec fn index(&self) -> IndexModel {
        self.chromosomes@.map_values(|c: Chromosome| (c.name@, c.start as int))
    }

    /// Chromosomes appear in buffer order and none starts past its end.
    pub open spec fn wf(&self) -> bool {
        &&& forall|i: int, j: int|
            0 <= i < j < self.chromosomes@.len() ==> #[trigger] self.chromosomes@[i].start
                <= #[trigger] self.chromosomes@[j].start
        &&& forall|i: int|
            0 <= i < self.chromosomes@.len() ==> #[trigger] self.chromosomes@[i].start
                <= self.nucleotides@.len()
    }

    /// A genome with no chromosome and no nucleotide.
    pub fn new() -> (g: Genome)
        ensures
            g.index() == Seq::<(Seq<char>, int)>::empty(),
            g.nucleotides@ == Seq::<u8>::empty(),
            g.wf(),
    {
        let g = Genome { chromosomes: Vec::new(), nucleotides: Vec::new() };
        assert(g.index() =~= Seq::<(Seq<char>, int)>::empty());
        g
    }

    /// Takes in one line of a FASTA source: a header opens a chromosome at
    /// the current end of the buffer, any other line is appended to it.
    pub fn add_line(&mut self, line: &str)
        requires
            old(self).wf(),
        ensures
            final(self).wf(),
            line@.contains('>') ==> final(self).index() == old(self).index().push(
                (header_name(line@), old(self).nucleotides@.len() as int),
            ) && final(self).nucleotides@ == old(self).nucleotides@,
            !line@.contains('>') ==> final(self).index() == old(self).index()
                && final(self).nucleotides@ == old(self).nucleotides@ + line_bytes(line@),
    {
        if has_marker(line) {
            let name = header_name_of(line);
            let start = self.nucleotides.len();
            self.chromosomes.push(Chromosome { name, start });
            assert(self.index() =~= old(self).index().push((header_name(line@), start as int)));
        } else {
            append_line_bytes(&mut self.nucleotides, line);
            assert(self.index() =~= old(self).index());
        }
    }
}

/// Whether `line` holds the header marker anywhere.
fn has_marker(line: &str) -> (r: bool)
    ensures
        r == line@.contains('>'),
{
    let mut found = false;
    for c in it: line.chars()
        invariant
            it.seq() == line@,
            found == exists|j: int| 0 <= j < it.index() && line@[j] == '>',
    {
        if c == '>' {
            found = true;
        }
    }
    found
}

/// `prefix_before` ends at the first `stop`, or at the end of `s`.
pub proof fn lemma_prefix_before(s: Seq<char>, stop: char, k: int)
    requires
        0 <= k <= s.len(),
        forall|j: int| 0 <= j < k ==> s[j] != stop,
        k == s.len() || s[k] == stop,
    ensures
        prefix_before(s, stop) == s.subrange(0, k),
    decreases k,
{
    if k > 0 {
        lemma_prefix_before(s.drop_first(), stop, k - 1);
        assert(s.subrange(0, k) =~= seq![s[0]] + s.drop_first().subrange(0, k - 1));
    }
}

proof fn lemma_index_prefix(lines: Seq<Seq<char>>, k: int)
    requires
        0 <= k <= lines.len(),
    ensures
        fasta_model(lines.take(k)).0.len() <= fasta_model(lines).0.len(),
        fasta_model(lines).0.subrange(0, fasta_model(lines.take(k)).0.len() as int) == fasta_model(
            lines.take(k),
        ).0,
    decreases lines.len() - k,
{
    let whole = fasta_model(lines).0;
    if k < lines.len() {
        lemma_index_prefix(lines, k + 1);
        assert(lines.take(k + 1).drop_last() =~= lines.take(k));
        let shorter = fasta_model(lines.take(k)).0;
        let longer = fasta_model(lines.take(k + 1)).0;
        assert(whole.subrange(0, shorter.len() as int) =~= longer.subrange(0, shorter.len() as int));
        assert(longer.subrange(0, shorter.len() as int) =~= shorter);
    } else {
        assert(lines.take(k) =~= lines);
        assert(whole.subrange(0, whole.len() as int) =~= whole);
    }
}

/// Every header line of a source, wherever it stands, has its own entry in
/// the index: the entry after those of the headers before it, named by
/// `header_name`, starting where the nucleotides before it end.
pub proof fn lemma_header_entry(lines: Seq<Seq<char>>, k: int)
    requires
        0 <= k < lines.len(),
        lines[k].contains('>'),
    ensures
        fasta_model(lines.take(k)).0.len() < fasta_model(lines).0.len(),
        fasta_model(lines).0[fasta_model(lines.take(k)).0.len() as int] == (
            header_name(lines[k]),
            fasta_model(lines.take(k)).1.len() as int,
        ),
{
    lemma_index_prefix(lines, k + 1);
    assert(lines.take(k + 1).drop_last() =~= lines.take(k));
    assert(lines.take(k + 1).last() == lines[k]);
    let longer = fasta_model(lines.take(k + 1)).0;
    let at = fasta_model(lines.take(k)).0.len() as int;
    assert(fasta_model(lines).0.subrange(0, longer.len() as int)[at] == longer[at]);
}

/// A header line with no space after its marker, wherever it stands in the
/// source, names its chromosome by the whole remainder of the line.
pub proof fn lemma_header_without_space(lines: Seq<Seq<char>>, k: int)
    requires
        0 <= k < lines.len(),
        lines[k].contains('>'),
        forall|j: int| 1 <= j < lines[k].len() ==> lines[k][j] != ' ',
    ensures
        header_name(lines[k]) == lines[k].drop_first(),
        fasta_model(lines).0[fasta_model(lines.take(k)).0.len() as int].0 == lines[k].drop_first(),
{
    let line = lines[k];
    lemma_prefix_before(line.drop_first(), ' ', line.len() - 1);
    assert(line.drop_first().subrange(0, line.len() - 1) =~= line.drop_first());
    lemma_header_entry(lines, k);
}

/// A header line with a space after its marker, wherever it stands in the
/// source, names its chromosome by the characters between the marker and
/// the first such space.
pub proof fn lemma_header_with_space(lines: Seq<Seq<char>>, k: int, sp: int)
    requires
        0 <= k < lines.len(),
        lines[k].contains('>'),
        1 <= sp < lines[k].len(),
        lines[k][sp] == ' ',
        forall|j: int| 1 <= j < sp ==> lines[k][j] != ' ',
    ensures
        header_name(lines[k]) == lines[k].subrange(1, sp),
        fasta_model(lines).0[fasta_model(lines.take(k)).0.len() as int].0 == lines[k].subrange(1, sp),
{
    let line = lines[k];
    lemma_prefix_before(line.drop_first(), ' ', sp - 1);
    assert(line.drop_first().subrange(0, sp - 1) =~= line.subrange(1, sp));
    lemma_header_entry(lines, k);
}

/// The name of a header line, as `header_name` describes it.
fn header_name_of(line: &str) -> (name: String)
    requires
        line@.len() >= 1,
    ensures
        name@ == header_name(line@),
{
    let n = line.unicode_len();
    let mut idx: usize = 0;
    let mut end: usize = n;
    let mut found = false;
    for c in it: line.chars()
        invariant
            it.seq() == line@,
            n == line@.len(),
            idx == it.index(),
            idx <= n,
            !found ==> end == n && forall|j: int| 1 <= j < idx ==> line@[j] != ' ',
            found ==> 1 <= end < n && line@[end as int] == ' ' && forall|j: int|
                1 <= j < end ==> line@[j] != ' ',
    {
        if !found && idx >= 1 && c == ' ' {
            end = idx;
            found = true;
        }
        idx = idx + 1;
    }
    proof {
        let rest = line@.drop_first();
        assert forall|j: int| 0 <= j < end - 1 implies rest[j] != ' ' by {
            assert(line@[j + 1] != ' ');
        }
        lemma_prefix_before(rest, ' ', end - 1);
        assert(rest.subrange(0, end - 1) =~= line@.subrange(1, end as int));
    }
    line.substring_char(1, end).to_owned()
}

/// Appends the bytes of a sequence line to `out`.
fn append_line_bytes(out: &mut Vec<u8>, line: &str)
    ensures
        final(out)@ == old(out)@ + line_bytes(line@),
{
    for c in it: line.chars()
        invariant
            out@ == old(out)@ + line_bytes(it.seq().take(it.index() as int)),
            it.seq() == line@,
    {
        assert(it.seq().take(it.index() + 1) =~= it.seq().take(it.index() as int).push(c));
        assert(line_bytes(it.seq().take(it.index() + 1)) =~= line_bytes(
            it.seq().take(it.index() as int),
        ).push(c as u8));
        out.push(c as u8);
    }
}

/// The views of a list of lines.
pub open spec fn line_views(lines: Seq<String>) -> Seq<Seq<char>> {
    lines.map_values(|l: String| l@)
}

/// Parses the lines of a FASTA source into the flat genome and its
/// chromosome index, in one pass.
pub fn read_fasta(lines: &Vec<String>) -> (g: Genome)
    ensures
        g.wf(),
        (g.index(), g.nucleotides@) == fasta_model(line_views(lines@)),
{
    let mut g = Genome::new();
    let n = lines.len();
    let mut i: usize = 0;
    while i < n
        invariant
            n == lines@.len(),
            i <= n,
            g.wf(),
            (g.index(), g.nucleotides@) == fasta_model(line_views(lines@).take(i as int)),
        decreases n - i,
    {
        let ghost before = line_views(lines@).take(i as int);
        g.add_line(lines[i].as_str());
        assert(line_views(lines@).take(i + 1).drop_last() =~= before);
        i += 1;
    }
    assert(line_views(lines@).take(n as int) =~= line_views(lines@));
    g
}

/// The start offset of the first chromosome named `chromosome`, or `None`
/// where no chromosome has that name or the name is empty.
pub fn chromosome_offset(chromosome: &str, chromosomes: &[Chromosome]) -> (r: Option<usize>)
    ensures
        r == offset_of(chromosomes@, chromosome@),
{
    if chromosome.is_empty() {
        return None;
    }
    let target = chromosome.to_owned();
    let n = chromosomes.len();
    let mut i: usize = 0;
    assert(chromosomes@.subrange(0, n as int) =~= chromosomes@);
    while i < n
        invariant
            n == chromosomes@.len(),
            i <= n,
            target@ == chromosome@,
            chromosome@.len() > 0,
            offset_of(chromosomes@, chromosome@) == first_named(
                chromosomes@.subrange(i as int, n as int),
                chromosome@,
            ),
        decreases n - i,
    {
        let c = &chromosomes[i];
        assert(chromosomes@.subrange(i + 1, n as int) =~= chromosomes@.subrange(
            i as int,
            n as int,
        ).drop_first());
        if c.name == target {
            return Some(c.start);
        }
        i += 1;
    }
    None
}

} // verus!
