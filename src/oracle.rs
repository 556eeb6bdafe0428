//! The exact-match oracle: every offset at which a motif, or its reverse
//! complement, occurs in a genome.
use vstd::prelude::*;

verus! {

/// Adenine, as an ASCII byte.
pub const BASE_A: u8 = 65;

/// Cytosine, as an ASCII byte.
pub const BASE_C: u8 = 67;

/// Guanine, as an ASCII byte.
pub const BASE_G: u8 = 71;

/// Thymine, as an ASCII byte.
pub const BASE_T: u8 = 84;

/// Watson-Crick complement of one nucleotide. A byte that is not one of
/// `A`, `C`, `G`, `T` becomes the NUL sentinel.
pub open spec fn complement(b: u8) -> u8 {
    if b == BASE_A {
        BASE_T
    } else if b == BASE_C {
        BASE_G
    } else if b == BASE_G {
        BASE_C
    } else if b == BASE_T {
        BASE_A
    } else {
        0u8
    }
}

/// The reverse complement: position `i` holds the complement of position
/// `len - 1 - i` of the motif.
pub open spec fn reverse_complement_of(m: Seq<u8>) -> Seq<u8> {
    Seq::new(m.len(), |i: int| complement(m[m.len() - 1 - i]))
}

/// One of the four nucleotides `A`, `C`, `G`, `T`.
pub open spec fn is_base(b: u8) -> bool {
    b == BASE_A || b == BASE_C || b == BASE_G || b == BASE_T
}

/// Every byte of `m` is a recognised nucleotide.
pub open spec fn all_bases(m: Seq<u8>) -> bool {
    forall|k: int| 0 <= k < m.len() ==> is_base(#[trigger] m[k])
}

/// The window of `g` starting at `i` with the length of `m` fits inside `g`
/// and is `m` itself or, where every base of `m` is recognised, its reverse
/// complement. A motif with an unrecognised base has no reverse strand that
/// could match: its sentinel matches nothing.
pub open spec fn is_hit(m: Seq<u8>, g: Seq<u8>, i: int) -> bool {
    &&& 0 <= i <= g.len() - m.len()
    &&& (g.subrange(i, i + m.len()) == m || (all_bases(m) && g.subrange(i, i + m.len())
        == reverse_complement_of(m)))
}

/// The hits among the start offsets below `n`, in ascending order.
pub open spec fn hits_below(m: Seq<u8>, g: Seq<u8>, n: int) -> Seq<usize>
    decreases n,
{
    if n <= 0 {
        Seq::empty()
    } else {
        let earlier = hits_below(m, g, n - 1);
        if is_hit(m, g, n - 1) {
            earlier.push((n - 1) as usize)
        } else {
            earlier
        }
    }
}

/// Every hit of `m` in `g`, in ascending order, each offset once.
pub open spec fn hits(m: Seq<u8>, g: Seq<u8>) -> Seq<usize> {
    hits_below(m, g, g.len() - m.len() + 1)
}

/// The offsets of `s` ascend strictly, so none appears twice.
pub open spec fn strictly_ascending(s: Seq<usize>) -> bool {
    forall|a: int, b: int| 0 <= a < b < s.len() ==> s[a] < s[b]
}

proof fn lemma_hits_below(m: Seq<u8>, g: Seq<u8>, n: int)
    requires
        0 <= n <= g.len() - m.len() + 1,
        g.len() <= usize::MAX,
    ensures
        strictly_ascending(hits_below(m, g, n)),
        forall|k: int|
            0 <= k < hits_below(m, g, n).len() ==> {
                &&& hits_below(m, g, n)[k] < n
                &&& is_hit(m, g, #[trigger] hits_below(m, g, n)[k] as int)
            },
        forall|i: int| 0 <= i < n && is_hit(m, g, i) ==> hits_below(m, g, n).contains(i as usize),
    decreases n,
{
    if n > 0 {
        lemma_hits_below(m, g, n - 1);
        let earlier = hits_below(m, g, n - 1);
        if is_hit(m, g, n - 1) {
            let now = earlier.push((n - 1) as usize);
            assert(now[earlier.len() as int] == (n - 1) as usize);
            assert forall|i: int| 0 <= i < n && is_hit(m, g, i) implies now.contains(i as usize) by {
                if i < n - 1 {
                    let k = choose|k: int| 0 <= k < earlier.len() && earlier[k] == i as usize;
                    assert(now[k] == i as usize);
                } else {
                    assert(now[earlier.len() as int] == i as usize);
                }
            }
        }
    }
}

/// What `hits` holds: offsets in strictly ascending order, each a hit, and
/// every hit among them.
pub proof fn lemma_hits_exact(m: Seq<u8>, g: Seq<u8>)
    requires
        m.len() <= g.len() <= usize::MAX,
    ensures
        strictly_ascending(hits(m, g)),
        forall|k: int| 0 <= k < hits(m, g).len() ==> is_hit(m, g, #[trigger] hits(m, g)[k] as int),
        forall|i: int| is_hit(m, g, i) ==> hits(m, g).contains(i as usize),
{
    lemma_hits_below(m, g, g.len() - m.len() + 1);
}

/// A motif written twice around one spacer base is found at the start of
/// both copies, offsets `0` and `len + 1`; where no window in between
/// matches the motif or its reverse complement, those two are all the hits.
pub proof fn lemma_motif_twice(m: Seq<u8>, gap: u8)
    requires
        2 * m.len() + 1 <= usize::MAX,
    ensures
        hits(m, m + seq![gap] + m).contains(0usize),
        hits(m, m + seq![gap] + m).contains((m.len() + 1) as usize),
        (forall|i: int| 0 < i < m.len() + 1 ==> !is_hit(m, m + seq![gap] + m, i)) ==> hits(
            m,
            m + seq![gap] + m,
        ) == seq![0usize, (m.len() + 1) as usize],
{
    let g = m + seq![gap] + m;
    let second: int = m.len() as int + 1;
    assert(g.subrange(0, m.len() as int) =~= m);
    assert(g.subrange(second, second + m.len()) =~= m);
    assert(is_hit(m, g, 0));
    assert(is_hit(m, g, second));
    lemma_hits_exact(m, g);
    let h = hits(m, g);
    if forall|i: int| 0 < i < m.len() + 1 ==> !is_hit(m, g, i) {
        assert forall|k: int| 0 <= k < h.len() implies h[k] == 0 || h[k] == second by {
            assert(is_hit(m, g, h[k] as int));
        }
        let a = choose|a: int| 0 <= a < h.len() && h[a] == 0usize;
        let b = choose|b: int| 0 <= b < h.len() && h[b] == second as usize;
        if h.len() > 2 {
            assert(h[0] < h[1] && h[1] < h[2]);
        }
        assert(h.len() == 2) by {
            assert(a != b);
        }
        assert(h[0] < h[1]);
        assert(h =~= seq![0usize, second as usize]);
    }
}

/// Where the window at `off` spells the reverse complement of a motif of
/// recognised bases, `off` is a hit, whether or not the motif itself occurs
/// there.
pub proof fn lemma_reverse_complement_found(m: Seq<u8>, g: Seq<u8>, off: int)
    requires
        all_bases(m),
        0 <= off,
        off + m.len() <= g.len() <= usize::MAX,
        g.subrange(off, off + m.len()) == reverse_complement_of(m),
    ensures
        hits(m, g).contains(off as usize),
{
    lemma_hits_exact(m, g);
    assert(is_hit(m, g, off));
}

/// Each matching position is reported exactly once, also for a motif that
/// equals its own reverse complement and so matches both ways.
pub proof fn lemma_each_hit_once(m: Seq<u8>, g: Seq<u8>, i: int)
    requires
        m.len() <= g.len() <= usize::MAX,
        is_hit(m, g, i),
    ensures
        exists|k: int|
            0 <= k < hits(m, g).len() && hits(m, g)[k] == i as usize && forall|j: int|
                0 <= j < hits(m, g).len() && #[trigger] hits(m, g)[j] == i as usize ==> j == k,
{
    lemma_hits_exact(m, g);
    let h = hits(m, g);
    let k = choose|k: int| 0 <= k < h.len() && h[k] == i as usize;
    assert forall|j: int| 0 <= j < h.len() && #[trigger] h[j] == i as usize implies j == k by {
        if j < k {
            assert(h[j] < h[k]);
        } else if k < j {
            assert(h[k] < h[j]);
        }
    }
}

/// Counted as a multiset, the hits hold each offset once where it is a hit
/// and never where it is not; a motif equal to its own reverse complement,
/// which matches both ways at once, is still counted once per position.
pub proof fn lemma_hit_count(m: Seq<u8>, g: Seq<u8>, i: usize)
    requires
        m.len() <= g.len() <= usize::MAX,
    ensures
        hits(m, g).to_multiset().count(i) == (if is_hit(m, g, i as int) {
            1nat
        } else {
            0nat
        }),
{
    broadcast use vstd::seq_lib::group_to_multiset_ensures;

    lemma_hits_exact(m, g);
    let h = hits(m, g);
    assert forall|a: int, b: int|
        0 <= a < h.len() && 0 <= b < h.len() && a != b implies h[a] != h[b] by {
        if a < b {
            assert(h[a] < h[b]);
        } else {
            assert(h[b] < h[a]);
        }
    }
    assert(h.no_duplicates());
    h.lemma_multiset_has_no_duplicates();
    if is_hit(m, g, i as int) {
        assert(h.contains(i));
    } else if h.to_multiset().count(i) > 0 {
        assert(h.contains(i));
        let k = choose|k: int| 0 <= k < h.len() && h[k] == i;
        assert(is_hit(m, g, h[k] as int));
    }
}

/// Byte-wise complement, the executable side of `complement`.
fn complement_base(b: u8) -> (c: u8)
    ensures
        c == complement(b),
{
    if b == BASE_A {
        BASE_T
    } else if b == BASE_C {
        BASE_G
    } else if b == BASE_G {
        BASE_C
    } else if b == BASE_T {
        BASE_A
    } else {
        0u8
    }
}

/// The reverse complement of `motif`: `A`/`T` and `C`/`G` swapped, read back
/// to front.
pub fn reverse_complement(motif: &[u8]) -> (r: Vec<u8>)
    ensures
        r@ == reverse_complement_of(motif@),
{
    let n = motif.len();
    let mut r: Vec<u8> = Vec::new();
    let mut k: usize = 0;
    while k < n
        invariant
            n == motif@.len(),
            k <= n,
            r@.len() == k,
            forall|j: int| 0 <= j < k ==> r@[j] == complement(motif@[n - 1 - j]),
        decreases n - k,
    {
        r.push(complement_base(motif[n - 1 - k]));
        k += 1;
    }
    assert(r@ =~= reverse_complement_of(motif@));
    r
}

/// Whether the window of `genome` at `start` spells `pattern`.
fn window_equals(genome: &[u8], start: usize, pattern: &[u8]) -> (r: bool)
    requires
        start + pattern@.len() <= genome@.len(),
    ensures
        r == (genome@.subrange(start as int, start + pattern@.len()) == pattern@),
{
    let n = pattern.len();
    let glen = genome.len();
    let mut k: usize = 0;
    while k < n
        invariant
            n == pattern@.len(),
            glen == genome@.len(),
            k <= n,
            start + n <= genome@.len(),
            forall|j: int| 0 <= j < k ==> genome@[start + j] == pattern@[j],
        decreases n - k,
    {
        if genome[start + k] != pattern[k] {
            assert(genome@.subrange(start as int, start + n)[k as int] != pattern@[k as int]);
            return false;
        }
        k += 1;
    }
    assert(genome@.subrange(start as int, start + n) =~= pattern@);
    true
}

/// Whether every byte of `motif` is one of `A`, `C`, `G`, `T`.
fn only_bases(motif: &[u8]) -> (r: bool)
    ensures
        r == all_bases(motif@),
{
    let n = motif.len();
    let mut k: usize = 0;
    while k < n
        invariant
            n == motif@.len(),
            k <= n,
            forall|j: int| 0 <= j < k ==> is_base(motif@[j]),
        decreases n - k,
    {
        let b = motif[k];
        if !(b == BASE_A || b == BASE_C || b == BASE_G || b == BASE_T) {
            return false;
        }
        k += 1;
    }
    true
}

/// Every offset at which `motif` occurs in `genome`, or its reverse
/// complement where every base of `motif` is recognised; ascending, each
/// once, including the last window that fits. A motif with an unrecognised
/// base is matched on the forward strand only.
pub fn find_hits(motif: &[u8], genome: &[u8]) -> (result: Vec<usize>)
    requires
        motif@.len() <= genome@.len(),
    ensures
        result@ == hits(motif@, genome@),
        strictly_ascending(result@),
        forall|k: int| 0 <= k < result@.len() ==> is_hit(motif@, genome@, #[trigger] result@[k] as int),
        forall|i: int| is_hit(motif@, genome@, i) ==> result@.contains(i as usize),
        !all_bases(motif@) ==> forall|k: int|
            0 <= k < result@.len() ==> genome@.subrange(
                result@[k] as int,
                result@[k] + motif@.len(),
            ) == motif@,
{
    let both_strands = only_bases(motif);
    let reverse = reverse_complement(motif);
    let mut result: Vec<usize> = Vec::new();
    let last = genome.len() - motif.len();
    let mut i: usize = 0;
    loop
        invariant_except_break
            result@ == hits_below(motif@, genome@, i as int),
        invariant
            last == genome@.len() - motif@.len(),
            i <= last,
            reverse@ == reverse_complement_of(motif@),
            both_strands == all_bases(motif@),
        ensures
            result@ == hits_below(motif@, genome@, last + 1),
        decreases last - i,
    {
        if window_equals(genome, i, motif) || (both_strands && window_equals(
            genome,
            i,
            reverse.as_slice(),
        )) {
            result.push(i);
        }
        if i == last {
            break;
        }
        i += 1;
    }
    proof {
        lemma_hits_exact(motif@, genome@);
    }
    result
}

} // verus!
