//! The benchmark: random query windows, the per-iteration validation of a
//! tool's reported hits against the oracle, and the count of accepted
//! iterations.
use vstd::prelude::*;
use vstd::slice::slice_subrange;
use crate::genome::{Genome, line_views};
use crate::oracle::{hits, find_hits};
use crate::reconcile::{
    ReconcileError, reconciled, agree, result_view, reconcile_hits, hits_agree,
    lemma_wrong_count_rejected,
};

verus! {

/// Relies on rand's `Rng::gen_range` on `thread_rng()`: a value in
/// `low..high`; it panics where `low >= high`.
#[verifier::external_body]
fn random_in(low: usize, high: usize) -> (r: usize)
    requires
        low < high,
    ensures
        low <= r < high,
{
    rand::Rng::gen_range(&mut rand::thread_rng(), low, high)
}

/// `w` is the window of `length` bases of `g` at some start in
/// `0..g.len() - length`.
pub open spec fn is_sample_of(w: Seq<u8>, g: Seq<u8>, length: int) -> bool {
    exists|start: int|
        0 <= start < g.len() - length && w == #[trigger] g.subrange(start, start + length)
}

/// A window of `length` bases of `genome` whose start is drawn at random
/// from `0..genome.len() - length`. The window borrows the genome.
pub fn random_subsequence(genome: &[u8], length: usize) -> (r: &[u8])
    requires
        length < genome@.len(),
    ensures
        is_sample_of(r@, genome@, length as int),
{
    let start = random_in(0, genome.len() - length);
    let r = slice_subrange(genome, start, start + length);
    assert(r@ == genome@.subrange(start as int, start + length));
    r
}

/// `count` random windows of `length` bases each.
pub fn sample_queries(genome: &[u8], length: usize, count: usize) -> (r: Vec<&[u8]>)
    requires
        count == 0 || length < genome@.len(),
    ensures
        r@.len() == count,
        forall|k: int| 0 <= k < count ==> is_sample_of(#[trigger] r@[k]@, genome@, length as int),
{
    let mut r: Vec<&[u8]> = Vec::new();
    let mut k: usize = 0;
    while k < count
        invariant
            k <= count,
            count == 0 || length < genome@.len(),
            r@.len() == k,
            forall|j: int| 0 <= j < k ==> is_sample_of(#[trigger] r@[j]@, genome@, length as int),
        decreases count - k,
    {
        r.push(random_subsequence(genome, length));
        k += 1;
    }
    r
}

/// The oracle's hits for a batch of queries: the hits of each query in
/// turn, one list after the other.
pub open spec fn batch_hits(queries: Seq<Seq<u8>>, genome: Seq<u8>) -> Seq<usize>
    decreases queries.len(),
{
    if queries.len() == 0 {
        Seq::empty()
    } else {
        batch_hits(queries.drop_last(), genome) + hits(queries.last(), genome)
    }
}

/// The contents of a batch of borrowed windows.
pub open spec fn query_views(queries: Seq<&[u8]>) -> Seq<Seq<u8>> {
    queries.map_values(|q: &[u8]| q@)
}

/// Why an iteration was discarded.
#[derive(Debug, Clone, Copy, PartialEq, Eq, Structural)]
pub enum Discard {
    /// A result line could not be mapped onto a flat offset.
    Unreadable(ReconcileError),
    /// The reported hits are not the oracle's.
    Mismatch,
}

/// The outcome of one iteration: the reported hits where they agree with
/// the oracle's, else why the iteration is discarded.
pub open spec fn iteration_outcome(
    queries: Seq<Seq<u8>>,
    genome: Genome,
    lines: Seq<Seq<char>>,
) -> Result<Seq<usize>, Discard> {
    match reconciled(lines, genome.chromosomes@) {
        Err(e) => Err(Discard::Unreadable(e)),
        Ok(reported) => {
            if agree(batch_hits(queries, genome.nucleotides@), reported) {
                Ok(reported)
            } else {
                Err(Discard::Mismatch)
            }
        },
    }
}

/// Where the tool's readable result lines hold a different number of hits
/// than the oracle found, the iteration is discarded as a mismatch: neither
/// accepted nor an error of its own.
pub proof fn lemma_wrong_count_discarded(
    queries: Seq<Seq<u8>>,
    genome: Genome,
    lines: Seq<Seq<char>>,
)
    requires
        reconciled(lines, genome.chromosomes@) is Ok,
        reconciled(lines, genome.chromosomes@).unwrap().len() != batch_hits(
            queries,
            genome.nucleotides@,
        ).len(),
    ensures
        iteration_outcome(queries, genome, lines) == Err::<Seq<usize>, Discard>(Discard::Mismatch),
{
    lemma_wrong_count_rejected(
        batch_hits(queries, genome.nucleotides@),
        reconciled(lines, genome.chromosomes@).unwrap(),
    );
}

/// Validates one iteration: the tool's result lines for the batch
/// `sequences` are mapped onto flat offsets and held against the oracle's
/// hits for the whole batch. The iteration is accepted, with the reported
/// offsets, only where the two agree.
pub fn measure_iter(genome: &Genome, sequences: &[&[u8]], reported: &Vec<String>) -> (r: Result<
    Vec<usize>,
    Discard,
>)
    requires
        forall|k: int| 0 <= k < sequences@.len() ==> #[trigger] sequences@[k]@.len() <= genome.nucleotides@.len(),
    ensures
        result_view(r) == iteration_outcome(
            query_views(sequences@),
            *genome,
            line_views(reported@),
        ),
        r matches Ok(v) ==> v@.len() == batch_hits(
            query_views(sequences@),
            genome.nucleotides@,
        ).len(),
{
    let mut expected: Vec<usize> = Vec::new();
    let n = sequences.len();
    let mut k: usize = 0;
    while k < n
        invariant
            n == sequences@.len(),
            k <= n,
            forall|j: int| 0 <= j < sequences@.len() ==> #[trigger] sequences@[j]@.len() <= genome.nucleotides@.len(),
            expected@ == batch_hits(query_views(sequences@).take(k as int), genome.nucleotides@),
        decreases n - k,
    {
        let found = find_hits(sequences[k], genome.nucleotides.as_slice());
        assert(query_views(sequences@).take(k + 1).drop_last() =~= query_views(sequences@).take(k as int));
        let mut found_mut = found;
        expected.append(&mut found_mut);
        k += 1;
    }
    assert(query_views(sequences@).take(n as int) =~= query_views(sequences@));
    match reconcile_hits(reported, genome.chromosomes.as_slice()) {
        Err(e) => Err(Discard::Unreadable(e)),
        Ok(hits) => {
            if hits_agree(&expected, &hits) {
                proof {
                    if expected@.len() != hits@.len() {
                        lemma_wrong_count_rejected(expected@, hits@);
                    }
                }
                Ok(hits)
            } else {
                Err(Discard::Mismatch)
            }
        },
    }
}

/// The benchmark loop's count: how many accepted iterations are still owed.
pub struct Benchmark {
    pub remaining: usize,
}

impl Benchmark {
    /// A benchmark that asks for `iterations` accepted iterations.
    pub fn new(iterations: usize) -> (b: Benchmark)
        ensures
            b.remaining == iterations,
    {
        Benchmark { remaining: iterations }
    }

    /// Whether every requested iteration has been accepted.
    pub fn is_done(&self) -> (r: bool)
        ensures
            r == (self.remaining == 0),
    {
        self.remaining == 0
    }

    /// Records the outcome of one iteration and says whether its timings
    /// are to be emitted: an accepted iteration counts and is emitted, a
    /// discarded one is redone and leaves the count as it was.
    pub fn record(&mut self, accepted: bool) -> (emit: bool)
        ensures
            emit == (accepted && old(self).remaining > 0),
            final(self).remaining == (if emit {
                old(self).remaining - 1
            } else {
                old(self).remaining as int
            }),
    {
        if accepted && self.remaining > 0 {
            self.remaining = self.remaining - 1;
            true
        } else {
            false
        }
    }
}

} // verus!
