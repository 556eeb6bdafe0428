//! The offset reconciler: a search tool's result lines mapped onto flat,
//! 0-based genome offsets and held against the oracle's.
use vstd::prelude::*;
use vstd::relations::{sorted_by, total_ordering};
use vstd::seq_lib::lemma_sorted_unique;
use vstd::slice::slice_to_vec;
use crate::genome::{Chromosome, offset_of, prefix_before, lemma_prefix_before, chromosome_offset, line_views};
use crate::oracle::{hits, is_hit, lemma_hits_exact};

verus! {

/// Whitespace that surrounds a result line and is ignored: the characters
/// with the Unicode `White_Space` property, as `char::is_whitespace` has them.
pub open spec fn is_blank(c: char) -> bool {
    let u = c as u32;
    ||| 0x9 <= u <= 0xd
    ||| u == 0x20
    ||| u == 0x85
    ||| u == 0xa0
    ||| u == 0x1680
    ||| 0x2000 <= u <= 0x200a
    ||| u == 0x2028
    ||| u == 0x2029
    ||| u == 0x202f
    ||| u == 0x205f
    ||| u == 0x3000
}

/// `s` without its leading whitespace.
pub open spec fn trim_start(s: Seq<char>) -> Seq<char>
    decreases s.len(),
{
    if s.len() > 0 && is_blank(s[0]) {
        trim_start(s.drop_first())
    } else {
        s
    }
}

/// `s` without its trailing whitespace.
pub open spec fn trim_end(s: Seq<char>) -> Seq<char>
    decreases s.len(),
{
    if s.len() > 0 && is_blank(s.last()) {
        trim_end(s.drop_last())
    } else {
        s
    }
}

/// `s` without whitespace at either end.
pub open spec fn trimmed(s: Seq<char>) -> Seq<char> {
    trim_end(trim_start(s))
}

/// A decimal digit.
pub open spec fn is_digit(c: char) -> bool {
    '0' <= c && c <= '9'
}

/// The value of a decimal digit.
pub open spec fn digit_value(c: char) -> int {
    c as int - '0' as int
}

/// The value of a string of decimal digits, most significant first.
pub open spec fn decimal_value(s: Seq<char>) -> int
    decreases s.len(),
{
    if s.len() == 0 {
        0
    } else {
        decimal_value(s.drop_last()) * 10 + digit_value(s.last())
    }
}

/// `s` is one or more decimal digits whose value fits in `usize`.
pub open spec fn is_digits_number(s: Seq<char>) -> bool {
    &&& s.len() > 0
    &&& forall|i: int| 0 <= i < s.len() ==> is_digit(#[trigger] s[i])
    &&& decimal_value(s) <= usize::MAX
}

/// `s` without its leading `+` sign, if it has one.
pub open spec fn unsigned_part(s: Seq<char>) -> Seq<char> {
    if s.len() > 0 && s[0] == '+' {
        s.drop_first()
    } else {
        s
    }
}

/// `s` is an unsigned decimal number that fits in `usize`: an optional
/// leading `+`, then one or more digits.
pub open spec fn is_number(s: Seq<char>) -> bool {
    is_digits_number(unsigned_part(s))
}

/// The value of the number `s`.
pub open spec fn number_value(s: Seq<char>) -> int {
    decimal_value(unsigned_part(s))
}

/// Why a result line could not be mapped onto a flat offset.
#[derive(Debug, Clone, Copy, PartialEq, Eq, Structural)]
pub enum ReconcileError {
    /// The line's name is empty, or no chromosome of the index has it.
    UnknownChromosome,
    /// The position or offset is not a decimal number that fits in `usize`.
    BadNumber,
    /// `start + position - 1` falls outside `0..=usize::MAX`.
    OutOfRange,
}

/// The flat offset that one non-blank result line stands for. A line
/// `name,position` holds a chromosome name and a 1-based position in it;
/// a line without a comma holds a flat 0-based offset.
pub open spec fn line_hit(line: Seq<char>, chromosomes: Seq<Chromosome>) -> Result<usize, ReconcileError> {
    let t = trimmed(line);
    if t.contains(',') {
        let name = prefix_before(t, ',');
        let digits = t.subrange(name.len() as int + 1, t.len() as int);
        match offset_of(chromosomes, name) {
            None => Err(ReconcileError::UnknownChromosome),
            Some(start) => {
                if !is_number(digits) {
                    Err(ReconcileError::BadNumber)
                } else if 0 <= start + number_value(digits) - 1 <= usize::MAX {
                    Ok((start + number_value(digits) - 1) as usize)
                } else {
                    Err(ReconcileError::OutOfRange)
                }
            },
        }
    } else if is_number(t) {
        Ok(number_value(t) as usize)
    } else {
        Err(ReconcileError::BadNumber)
    }
}

proof fn lemma_trim_start(s: Seq<char>, a: int)
    requires
        0 <= a <= s.len(),
        forall|j: int| 0 <= j < a ==> is_blank(s[j]),
        a == s.len() || !is_blank(s[a]),
    ensures
        trim_start(s) == s.subrange(a, s.len() as int),
    decreases a,
{
    if a > 0 {
        lemma_trim_start(s.drop_first(), a - 1);
        assert(s.drop_first().subrange(a - 1, s.len() - 1) =~= s.subrange(a, s.len() as int));
    } else {
        assert(s.subrange(0, s.len() as int) =~= s);
    }
}

proof fn lemma_trim_end(s: Seq<char>, b: int)
    requires
        0 <= b <= s.len(),
        forall|j: int| b <= j < s.len() ==> is_blank(s[j]),
        b == 0 || !is_blank(s[b - 1]),
    ensures
        trim_end(s) == s.subrange(0, b),
    decreases s.len() - b,
{
    if b < s.len() {
        lemma_trim_end(s.drop_last(), b);
        assert(s.drop_last().subrange(0, b) =~= s.subrange(0, b));
    } else {
        assert(s.subrange(0, b) =~= s);
    }
}

proof fn lemma_decimal_prefix(s: Seq<char>, k: int)
    requires
        0 <= k <= s.len(),
        forall|i: int| 0 <= i < s.len() ==> is_digit(#[trigger] s[i]),
    ensures
        0 <= decimal_value(s.subrange(0, k)) <= decimal_value(s),
    decreases s.len(),
{
    if k == s.len() {
        assert(s.subrange(0, k) =~= s);
        if s.len() > 0 {
            lemma_decimal_prefix(s.drop_last(), k - 1);
            assert(s.drop_last().subrange(0, k - 1) =~= s.drop_last());
        }
    } else {
        lemma_decimal_prefix(s.drop_last(), k);
        assert(s.drop_last().subrange(0, k) =~= s.subrange(0, k));
        lemma_decimal_prefix(s.drop_last(), s.len() - 1);
        assert(s.drop_last().subrange(0, s.len() - 1) =~= s.drop_last());
    }
}

/// The characters of `s`, one per element.
pub(crate) fn chars_of(s: &str) -> (r: Vec<char>)
    ensures
        r@ == s@,
{
    let mut r: Vec<char> = Vec::new();
    for c in it: s.chars()
        invariant
            it.seq() == s@,
            r@ == it.seq().take(it.index() as int),
    {
        assert(it.seq().take(it.index() + 1) =~= it.seq().take(it.index() as int).push(c));
        r.push(c);
    }
    r
}

/// Whether `c` is whitespace, as `is_blank` has it.
fn is_blank_char(c: char) -> (r: bool)
    ensures
        r == is_blank(c),
{
    let u = c as u32;
    (0x9 <= u && u <= 0xd) || u == 0x20 || u == 0x85 || u == 0xa0 || u == 0x1680 || (0x2000 <= u
        && u <= 0x200a) || u == 0x2028 || u == 0x2029 || u == 0x202f || u == 0x205f || u == 0x3000
}

/// The bounds of the line without its surrounding whitespace.
fn trim_bounds(cs: &Vec<char>) -> (r: (usize, usize))
    ensures
        r.0 <= r.1 <= cs@.len(),
        cs@.subrange(r.0 as int, r.1 as int) == trimmed(cs@),
{
    let n = cs.len();
    let mut a: usize = 0;
    while a < n && is_blank_char(cs[a])
        invariant
            n == cs@.len(),
            a <= n,
            forall|j: int| 0 <= j < a ==> is_blank(cs@[j]),
        decreases n - a,
    {
        a += 1;
    }
    let mut b: usize = n;
    while b > a && is_blank_char(cs[b - 1])
        invariant
            n == cs@.len(),
            a <= b <= n,
            forall|j: int| b <= j < n ==> is_blank(cs@[j]),
        decreases b - a,
    {
        b -= 1;
    }
    proof {
        lemma_trim_start(cs@, a as int);
        let rest = cs@.subrange(a as int, n as int);
        lemma_trim_end(rest, b - a);
        assert(rest.subrange(0, b - a) =~= cs@.subrange(a as int, b as int));
    }
    (a, b)
}

/// The number that `cs[from..to]` spells, an optional `+` and then decimal
/// digits, if it is one that fits.
pub(crate) fn parse_decimal(cs: &Vec<char>, from: usize, to: usize) -> (r: Option<usize>)
    requires
        from <= to <= cs@.len(),
    ensures
        r == (if is_number(cs@.subrange(from as int, to as int)) {
            Some(number_value(cs@.subrange(from as int, to as int)) as usize)
        } else {
            None::<usize>
        }),
{
    let ghost s = cs@.subrange(from as int, to as int);
    if from < to && cs[from] == '+' {
        assert(cs@.subrange(from + 1, to as int) =~= unsigned_part(s));
        parse_digits(cs, from + 1, to)
    } else {
        assert(s =~= unsigned_part(s));
        parse_digits(cs, from, to)
    }
}

/// The decimal number that the digits `cs[from..to]` spell, if it fits.
fn parse_digits(cs: &Vec<char>, from: usize, to: usize) -> (r: Option<usize>)
    requires
        from <= to <= cs@.len(),
    ensures
        r == (if is_digits_number(cs@.subrange(from as int, to as int)) {
            Some(decimal_value(cs@.subrange(from as int, to as int)) as usize)
        } else {
            None::<usize>
        }),
{
    let ghost s = cs@.subrange(from as int, to as int);
    if from == to {
        return None;
    }
    let mut value: usize = 0;
    let mut k: usize = from;
    while k < to
        invariant
            from <= k <= to <= cs@.len(),
            s == cs@.subrange(from as int, to as int),
            forall|i: int| 0 <= i < k - from ==> is_digit(#[trigger] s[i]),
            value == decimal_value(s.subrange(0, k - from)),
        decreases to - k,
    {
        let c = cs[k];
        if !('0' <= c && c <= '9') {
            assert(!is_digit(s[k - from]));
            return None;
        }
        let d = (c as u32 - '0' as u32) as usize;
        assert(s.subrange(0, k + 1 - from).drop_last() =~= s.subrange(0, k - from));
        match value.checked_mul(10) {
            None => {
                proof {
                    if forall|i: int| 0 <= i < s.len() ==> is_digit(#[trigger] s[i]) {
                        lemma_decimal_prefix(s, k + 1 - from);
                        lemma_decimal_prefix(s, k - from);
                    }
                }
                return None;
            },
            Some(tens) => match tens.checked_add(d) {
                None => {
                    proof {
                        if forall|i: int| 0 <= i < s.len() ==> is_digit(#[trigger] s[i]) {
                            lemma_decimal_prefix(s, k + 1 - from);
                        }
                    }
                    return None;
                },
                Some(next) => {
                    value = next;
                },
            },
        }
        k += 1;
    }
    assert(s.subrange(0, to - from) =~= s);
    Some(value)
}

/// The first index in `from..to` that holds `c`, or `to` where none does.
pub(crate) fn find_char(cs: &Vec<char>, from: usize, to: usize, c: char) -> (r: usize)
    requires
        from <= to <= cs@.len(),
    ensures
        from <= r <= to,
        forall|j: int| from <= j < r ==> cs@[j] != c,
        r < to ==> cs@[r as int] == c,
{
    let mut k: usize = from;
    while k < to && cs[k] != c
        invariant
            from <= k <= to <= cs@.len(),
            forall|j: int| from <= j < k ==> cs@[j] != c,
        decreases to - k,
    {
        k += 1;
    }
    k
}

/// Maps one non-blank result line onto a flat 0-based offset: `name,position`
/// becomes the chromosome's start plus the 1-based position minus one, a
/// bare number is taken as the flat offset itself.
pub fn reconcile_line(line: &str, chromosomes: &[Chromosome]) -> (r: Result<usize, ReconcileError>)
    ensures
        r == line_hit(line@, chromosomes@),
{
    let cs = chars_of(line);
    let (a, b) = trim_bounds(&cs);
    let ghost t = cs@.subrange(a as int, b as int);
    let comma = find_char(&cs, a, b, ',');
    if comma < b {
        proof {
            assert(t[comma - a] == ',');
            assert(t.contains(','));
            assert forall|j: int| 0 <= j < comma - a implies t[j] != ',' by {
                assert(cs@[a + j] != ',');
            }
            lemma_prefix_before(t, ',', comma - a);
            assert(t.subrange(0, comma - a) =~= cs@.subrange(a as int, comma as int));
            assert(t.subrange(comma - a + 1, t.len() as int) =~= cs@.subrange(comma + 1, b as int));
        }
        let name = line.substring_char(a, comma);
        let ghost digits = cs@.subrange(comma + 1, b as int);
        assert(name@ == prefix_before(trimmed(line@), ','));
        assert(digits == trimmed(line@).subrange(name@.len() as int + 1, trimmed(line@).len() as int));
        match chromosome_offset(name, chromosomes) {
            None => Err(ReconcileError::UnknownChromosome),
            Some(start) => match parse_decimal(&cs, comma + 1, b) {
                None => Err(ReconcileError::BadNumber),
                Some(p) => {
                    proof {
                        lemma_decimal_prefix(unsigned_part(digits), 0);
                    }
                    if p == 0 {
                        if start == 0 {
                            Err(ReconcileError::OutOfRange)
                        } else {
                            Ok(start - 1)
                        }
                    } else if start > usize::MAX - (p - 1) {
                        Err(ReconcileError::OutOfRange)
                    } else {
                        Ok(start + (p - 1))
                    }
                },
            },
        }
    } else {
        proof {
            if t.contains(',') {
                let j = choose|j: int| 0 <= j < t.len() && t[j] == ',';
                assert(cs@[a + j] == ',');
            }
        }
        assert(!trimmed(line@).contains(','));
        match parse_decimal(&cs, a, b) {
            None => Err(ReconcileError::BadNumber),
            Some(v) => Ok(v),
        }
    }
}

/// The flat offsets of a tool's result lines, in line order, blank lines
/// skipped; the first line that cannot be mapped decides the error.
pub open spec fn reconciled(lines: Seq<Seq<char>>, chromosomes: Seq<Chromosome>) -> Result<
    Seq<usize>,
    ReconcileError,
>
    decreases lines.len(),
{
    if lines.len() == 0 {
        Ok(Seq::empty())
    } else {
        match reconciled(lines.drop_last(), chromosomes) {
            Err(e) => Err(e),
            Ok(earlier) => {
                if trimmed(lines.last()).len() == 0 {
                    Ok(earlier)
                } else {
                    match line_hit(lines.last(), chromosomes) {
                        Ok(h) => Ok(earlier.push(h)),
                        Err(e) => Err(e),
                    }
                }
            },
        }
    }
}

/// A result over vectors, seen as one over sequences.
pub open spec fn result_view<E>(r: Result<Vec<usize>, E>) -> Result<Seq<usize>, E> {
    match r {
        Ok(v) => Ok(v@),
        Err(e) => Err(e),
    }
}

/// Two hit lists agree when, sorted, they are the same list: the same
/// offsets, each as often.
pub open spec fn agree(expected: Seq<usize>, reported: Seq<usize>) -> bool {
    expected.to_multiset() == reported.to_multiset()
}

/// The order in which hit lists are sorted.
pub open spec fn ascending() -> spec_fn(usize, usize) -> bool {
    |a: usize, b: usize| a <= b
}

proof fn lemma_ascending_total()
    ensures
        total_ordering(ascending()),
{
    let leq = ascending();
    assert forall|x: usize| #[trigger] leq(x, x) by {}
    assert forall|x: usize, y: usize| #[trigger] leq(x, y) && #[trigger] leq(y, x) implies x == y by {}
    assert forall|x: usize, y: usize, z: usize|
        #[trigger] leq(x, y) && #[trigger] leq(y, z) implies leq(x, z) by {}
    assert forall|x: usize, y: usize| #[trigger] leq(x, y) || leq(y, x) by {}
}

/// Whether a result line holds nothing but whitespace.
fn is_blank_line(line: &str) -> (r: bool)
    ensures
        r == (trimmed(line@).len() == 0),
{
    let cs = chars_of(line);
    let (a, b) = trim_bounds(&cs);
    a == b
}

/// Maps every non-blank result line onto a flat 0-based offset, in order;
/// fails with the error of the first line that cannot be mapped.
pub fn reconcile_hits(lines: &Vec<String>, chromosomes: &[Chromosome]) -> (r: Result<
    Vec<usize>,
    ReconcileError,
>)
    ensures
        result_view(r) == reconciled(line_views(lines@), chromosomes@),
{
    let mut out: Vec<usize> = Vec::new();
    let n = lines.len();
    let mut i: usize = 0;
    while i < n
        invariant
            n == lines@.len(),
            i <= n,
            reconciled(line_views(lines@).take(i as int), chromosomes@) == Ok::<
                Seq<usize>,
                ReconcileError,
            >(out@),
        decreases n - i,
    {
        let ghost before = line_views(lines@).take(i as int);
        assert(line_views(lines@).take(i + 1).drop_last() =~= before);
        assert(line_views(lines@).take(i + 1).last() == lines@[i as int]@);
        let line = lines[i].as_str();
        if !is_blank_line(line) {
            match reconcile_line(line, chromosomes) {
                Ok(h) => out.push(h),
                Err(e) => {
                    proof {
                        lemma_reconciled_error(line_views(lines@), chromosomes@, i + 1);
                    }
                    return Err(e);
                },
            }
        }
        i += 1;
    }
    assert(line_views(lines@).take(n as int) =~= line_views(lines@));
    Ok(out)
}

proof fn lemma_reconciled_error(lines: Seq<Seq<char>>, chromosomes: Seq<Chromosome>, k: int)
    requires
        0 <= k <= lines.len(),
        reconciled(lines.take(k), chromosomes) is Err,
    ensures
        reconciled(lines, chromosomes) == reconciled(lines.take(k), chromosomes),
    decreases lines.len() - k,
{
    if k < lines.len() {
        assert(lines.take(k + 1).drop_last() =~= lines.take(k));
        lemma_reconciled_error(lines, chromosomes, k + 1);
    } else {
        assert(lines.take(k) =~= lines);
    }
}

/// Relies on `slice::sort` of std: the same elements, now in ascending order.
#[verifier::external_body]
fn sort_ascending(v: &mut Vec<usize>)
    ensures
        final(v)@.to_multiset() == old(v)@.to_multiset(),
        sorted_by(final(v)@, ascending()),
{
    v.sort();
}

/// The validation protocol: both lists sorted ascending, then compared
/// element by element; any difference in length or in an element rejects.
pub fn hits_agree(expected: &Vec<usize>, reported: &Vec<usize>) -> (r: bool)
    ensures
        r == agree(expected@, reported@),
{
    let mut a = slice_to_vec(expected.as_slice());
    let mut b = slice_to_vec(reported.as_slice());
    sort_ascending(&mut a);
    sort_ascending(&mut b);
    if a.len() != b.len() {
        proof {
            broadcast use vstd::seq_lib::group_to_multiset_ensures;
            assert(a@.to_multiset().len() != b@.to_multiset().len());
        }
        return false;
    }
    let n = a.len();
    let mut i: usize = 0;
    while i < n
        invariant
            n == a@.len(),
            n == b@.len(),
            i <= n,
            forall|j: int| 0 <= j < i ==> a@[j] == b@[j],
            sorted_by(a@, ascending()),
            sorted_by(b@, ascending()),
            a@.to_multiset() == expected@.to_multiset(),
            b@.to_multiset() == reported@.to_multiset(),
        decreases n - i,
    {
        if a[i] != b[i] {
            proof {
                if a@.to_multiset() == b@.to_multiset() {
                    lemma_ascending_total();
                    lemma_sorted_unique(a@, b@, ascending());
                }
            }
            return false;
        }
        i += 1;
    }
    assert(a@ =~= b@);
    true
}

/// A hit list whose length differs from the oracle's never agrees with it,
/// so the iteration that produced it is discarded.
pub proof fn lemma_wrong_count_rejected(expected: Seq<usize>, reported: Seq<usize>)
    requires
        expected.len() != reported.len(),
    ensures
        !agree(expected, reported),
{
    broadcast use vstd::seq_lib::group_to_multiset_ensures;
    assert(expected.to_multiset().len() != reported.to_multiset().len());
}

/// The result line `name,digits`.
pub open spec fn local_line(name: Seq<char>, digits: Seq<char>) -> Seq<char> {
    name + seq![','] + digits
}

/// The flat offset that `name,digits` stands for: the chromosome's start plus
/// the 1-based position minus one.
pub open spec fn local_flat(chromosomes: Seq<Chromosome>, name: Seq<char>, digits: Seq<char>) -> int {
    offset_of(chromosomes, name).unwrap() + number_value(digits) - 1
}

/// `name,digits` is a well-formed chromosome-relative line: the name is
/// found, holds no comma and does not begin with whitespace, and the
/// position is a number of at least one whose flat offset fits in `usize`.
pub open spec fn is_local_line(chromosomes: Seq<Chromosome>, name: Seq<char>, digits: Seq<char>) -> bool {
    &&& offset_of(chromosomes, name) is Some
    &&& !name.contains(',')
    &&& !is_blank(name[0])
    &&& is_number(digits)
    &&& number_value(digits) >= 1
    &&& local_flat(chromosomes, name, digits) <= usize::MAX
}

proof fn lemma_local_line(chromosomes: Seq<Chromosome>, name: Seq<char>, digits: Seq<char>)
    requires
        is_local_line(chromosomes, name, digits),
    ensures
        trimmed(local_line(name, digits)).len() > 0,
        line_hit(local_line(name, digits), chromosomes) == Ok::<usize, ReconcileError>(
            local_flat(chromosomes, name, digits) as usize,
        ),
{
    let line = local_line(name, digits);
    assert(name.len() > 0);
    assert(line[0] == name[0]);
    assert(line.last() == digits.last());
    assert(digits.last() == unsigned_part(digits).last());
    assert(is_digit(unsigned_part(digits)[unsigned_part(digits).len() - 1]));
    lemma_trim_start(line, 0);
    assert(line.subrange(0, line.len() as int) =~= line);
    lemma_trim_end(line, line.len() as int);
    assert(trimmed(line) == line);
    assert(line[name.len() as int] == ',');
    assert forall|j: int| 0 <= j < name.len() implies line[j] != ',' by {
        assert(line[j] == name[j]);
        if name[j] == ',' {
            assert(name.contains(','));
        }
    }
    lemma_prefix_before(line, ',', name.len() as int);
    assert(line.subrange(0, name.len() as int) =~= name);
    assert(line.subrange(name.len() as int + 1, line.len() as int) =~= digits);
    assert(line.contains(','));
}

/// A line `name,position` naming a chromosome that starts at `start`, with a
/// 1-based position inside the genome, maps onto `start + position - 1`; and
/// a motif planted in the genome at that offset is found there by the oracle.
pub proof fn lemma_offset_round_trip(
    chromosomes: Seq<Chromosome>,
    name: Seq<char>,
    digits: Seq<char>,
    motif: Seq<u8>,
    genome: Seq<u8>,
)
    requires
        is_local_line(chromosomes, name, digits),
        local_flat(chromosomes, name, digits) + motif.len() <= genome.len() <= usize::MAX,
        genome.subrange(
            local_flat(chromosomes, name, digits),
            local_flat(chromosomes, name, digits) + motif.len(),
        ) == motif,
    ensures
        line_hit(local_line(name, digits), chromosomes) == Ok::<usize, ReconcileError>(
            local_flat(chromosomes, name, digits) as usize,
        ),
        hits(motif, genome).contains(local_flat(chromosomes, name, digits) as usize),
{
    lemma_local_line(chromosomes, name, digits);
    lemma_hits_exact(motif, genome);
    assert(is_hit(motif, genome, local_flat(chromosomes, name, digits)));
}

/// A whole list of chromosome-relative lines `name_k,position_k` maps onto
/// the list of their flat offsets `start_k + position_k - 1`, in line order.
pub proof fn lemma_local_lines(
    chromosomes: Seq<Chromosome>,
    names: Seq<Seq<char>>,
    digits: Seq<Seq<char>>,
)
    requires
        names.len() == digits.len(),
        forall|k: int| 0 <= k < names.len() ==> is_local_line(chromosomes, #[trigger] names[k], digits[k]),
    ensures
        reconciled(
            Seq::new(names.len(), |k: int| local_line(names[k], digits[k])),
            chromosomes,
        ) == Ok::<Seq<usize>, ReconcileError>(
            Seq::new(names.len(), |k: int| local_flat(chromosomes, names[k], digits[k]) as usize),
        ),
    decreases names.len(),
{
    let lines = Seq::new(names.len(), |k: int| local_line(names[k], digits[k]));
    let flats = Seq::new(names.len(), |k: int| local_flat(chromosomes, names[k], digits[k]) as usize);
    if names.len() == 0 {
        assert(flats =~= Seq::<usize>::empty());
    } else {
        let n = names.len() - 1;
        assert forall|k: int| 0 <= k < n implies is_local_line(chromosomes, #[trigger] names.drop_last()[k], digits.drop_last()[k]) by {
            assert(is_local_line(chromosomes, names[k], digits[k]));
        }
        lemma_local_lines(chromosomes, names.drop_last(), digits.drop_last());
        assert(lines.drop_last() =~= Seq::new(
            names.drop_last().len(),
            |k: int| local_line(names.drop_last()[k], digits.drop_last()[k]),
        ));
        assert(flats.drop_last() =~= Seq::new(
            names.drop_last().len(),
            |k: int| local_flat(chromosomes, names.drop_last()[k], digits.drop_last()[k]) as usize,
        ));
        assert(is_local_line(chromosomes, names[n], digits[n]));
        lemma_local_line(chromosomes, names[n], digits[n]);
        assert(lines.last() == local_line(names[n], digits[n]));
        assert(flats =~= flats.drop_last().push(flats[n]));
    }
}

} // verus!
