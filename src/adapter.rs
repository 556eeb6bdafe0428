//! Reading a search tool's text output: locating the line that reports its
//! own search time and the number written there.
use vstd::prelude::*;
use crate::genome::{prefix_before, lemma_prefix_before, line_views};
use crate::reconcile::{is_number, number_value, chars_of, parse_decimal, find_char};

verus! {

/// `s` begins with `p`.
pub open spec fn starts_with(s: Seq<char>, p: Seq<char>) -> bool {
    p.len() <= s.len() && s.subrange(0, p.len() as int) == p
}

/// The index of the first of `lines` that begins with `p`, if any.
pub open spec fn first_line_with(lines: Seq<Seq<char>>, p: Seq<char>) -> Option<int>
    decreases lines.len(),
{
    if lines.len() == 0 {
        None
    } else {
        match first_line_with(lines.drop_last(), p) {
            Some(i) => Some(i),
            None => if starts_with(lines.last(), p) {
                Some(lines.len() - 1)
            } else {
                None
            },
        }
    }
}

/// The number that a line holds from character `from` up to the next space
/// or the end of the line, if it is an unsigned decimal number, with an
/// optional leading `+`, that fits in `usize`.
pub open spec fn number_at(line: Seq<char>, from: int) -> Option<usize> {
    if 0 <= from <= line.len() && is_number(
        prefix_before(line.subrange(from, line.len() as int), ' '),
    ) {
        Some(number_value(prefix_before(line.subrange(from, line.len() as int), ' ')) as usize)
    } else {
        None
    }
}

/// Whether `line` begins with `prefix`.
fn line_starts_with(line: &str, prefix: &str) -> (r: bool)
    ensures
        r == starts_with(line@, prefix@),
{
    let l = chars_of(line);
    let p = chars_of(prefix);
    if p.len() > l.len() {
        return false;
    }
    let n = p.len();
    let mut k: usize = 0;
    while k < n
        invariant
            n == p@.len(),
            n <= l@.len(),
            l@ == line@,
            p@ == prefix@,
            k <= n,
            forall|j: int| 0 <= j < k ==> l@[j] == p@[j],
        decreases n - k,
    {
        if l[k] != p[k] {
            assert(l@.subrange(0, n as int)[k as int] != p@[k as int]);
            return false;
        }
        k += 1;
    }
    assert(l@.subrange(0, n as int) =~= p@);
    true
}

/// The index of the first line that begins with `prefix`.
pub fn find_line_starting_with(lines: &Vec<String>, prefix: &str) -> (r: Option<usize>)
    ensures
        r matches Some(i) ==> first_line_with(line_views(lines@), prefix@) == Some(i as int),
        r is None ==> first_line_with(line_views(lines@), prefix@) is None,
{
    let n = lines.len();
    let mut i: usize = 0;
    while i < n
        invariant
            n == lines@.len(),
            i <= n,
            first_line_with(line_views(lines@).take(i as int), prefix@) is None,
        decreases n - i,
    {
        assert(line_views(lines@).take(i + 1).drop_last() =~= line_views(lines@).take(i as int));
        if line_starts_with(lines[i].as_str(), prefix) {
            proof {
                lemma_first_line_kept(line_views(lines@), prefix@, i + 1);
            }
            return Some(i);
        }
        i += 1;
    }
    assert(line_views(lines@).take(n as int) =~= line_views(lines@));
    None
}

proof fn lemma_first_line_kept(lines: Seq<Seq<char>>, p: Seq<char>, k: int)
    requires
        0 <= k <= lines.len(),
        first_line_with(lines.take(k), p) is Some,
    ensures
        first_line_with(lines, p) == first_line_with(lines.take(k), p),
    decreases lines.len() - k,
{
    if k < lines.len() {
        assert(lines.take(k + 1).drop_last() =~= lines.take(k));
        lemma_first_line_kept(lines, p, k + 1);
    } else {
        assert(lines.take(k) =~= lines);
    }
}

/// The decimal number that `line` holds from character `from` up to the
/// next space or its end.
pub fn number_at_char(line: &str, from: usize) -> (r: Option<usize>)
    ensures
        r == number_at(line@, from as int),
{
    let cs = chars_of(line);
    let n = cs.len();
    if from > n {
        return None;
    }
    let end = find_char(&cs, from, n, ' ');
    proof {
        let rest = cs@.subrange(from as int, n as int);
        assert forall|j: int| 0 <= j < end - from implies rest[j] != ' ' by {
            assert(cs@[from + j] != ' ');
        }
        lemma_prefix_before(rest, ' ', end - from);
        assert(rest.subrange(0, end - from) =~= cs@.subrange(from as int, end as int));
    }
    parse_decimal(&cs, from, end)
}

} // verus!
