//! Sums of counts: the key-wise addition that combines the counts of lines
//! into file totals and file totals into a grand total, and the laws that make
//! the order of summing irrelevant.
use vstd::prelude::*;
use vstd::seq_lib::group_to_multiset_ensures;

use crate::counter::{
    add_counts, count_or_zero, counts_for, fits, sum_counts, sum_of, Counted, Counter, count,
};
use crate::error::UwcError;
use crate::ubufreader::{lemma_nothing_after_bad_line, stream_lines};
use vstd::utf8::{decode_utf8, valid_utf8};

verus! {

/// Lines grouped into chunks, put back in one sequence.
pub open spec fn joined(chunks: Seq<Seq<Map<Counter, nat>>>) -> Seq<Map<Counter, nat>>
    decreases chunks.len(),
{
    if chunks.len() == 0 {
        Seq::empty()
    } else {
        joined(chunks.drop_last()) + chunks.last()
    }
}

/// The total of each chunk.
pub open spec fn chunk_totals(chunks: Seq<Seq<Map<Counter, nat>>>) -> Seq<Map<Counter, nat>> {
    chunks.map_values(|chunk: Seq<Map<Counter, nat>>| sum_of(chunk))
}

/// Adding counts does not depend on the order of the two sides.
pub proof fn lemma_add_commutes(a: Map<Counter, nat>, b: Map<Counter, nat>)
    ensures
        add_counts(a, b) == add_counts(b, a),
{
    assert(add_counts(a, b) =~= add_counts(b, a));
}

/// Adding counts does not depend on how the additions are grouped.
pub proof fn lemma_add_associates(a: Map<Counter, nat>, b: Map<Counter, nat>, c: Map<Counter, nat>)
    ensures
        add_counts(add_counts(a, b), c) == add_counts(a, add_counts(b, c)),
{
    assert(add_counts(add_counts(a, b), c) =~= add_counts(a, add_counts(b, c)));
}

/// No counts on either side leaves the other side as it is.
proof fn lemma_add_empty(a: Map<Counter, nat>)
    ensures
        add_counts(Map::empty(), a) == a,
        add_counts(a, Map::empty()) == a,
{
    assert(add_counts(Map::empty(), a) =~= a);
    assert(add_counts(a, Map::empty()) =~= a);
}

/// The sum of two sequences put together is the sum of their sums.
pub proof fn lemma_sum_concat(ms: Seq<Map<Counter, nat>>, ns: Seq<Map<Counter, nat>>)
    ensures
        sum_of(ms + ns) == add_counts(sum_of(ms), sum_of(ns)),
    decreases ns.len(),
{
    if ns.len() == 0 {
        assert(ms + ns =~= ms);
        lemma_add_empty(sum_of(ms));
    } else {
        let init = ns.drop_last();
        lemma_sum_concat(ms, init);
        assert((ms + ns).drop_last() =~= ms + init);
        lemma_add_associates(sum_of(ms), sum_of(init), ns.last());
    }
}

/// Taking one element out of a sequence and adding it last keeps the sum.
proof fn lemma_sum_remove(ns: Seq<Map<Counter, nat>>, j: int)
    requires
        0 <= j < ns.len(),
    ensures
        sum_of(ns) == add_counts(sum_of(ns.remove(j)), ns[j]),
{
    let pre = ns.subrange(0, j);
    let post = ns.subrange(j + 1, ns.len() as int);
    let x = ns[j];
    assert(ns =~= pre.push(x) + post);
    assert(ns.remove(j) =~= pre + post);
    assert(pre.push(x).drop_last() =~= pre);
    lemma_sum_concat(pre.push(x), post);
    lemma_sum_concat(pre, post);
    lemma_add_associates(sum_of(pre), x, sum_of(post));
    lemma_add_commutes(x, sum_of(post));
    lemma_add_associates(sum_of(pre), sum_of(post), x);
}

/// Sums do not depend on the order of what is summed: two sequences that hold
/// the same counts, in any order, have the same sum.
pub proof fn lemma_sum_any_order(ms: Seq<Map<Counter, nat>>, ns: Seq<Map<Counter, nat>>)
    requires
        ms.to_multiset() == ns.to_multiset(),
    ensures
        sum_of(ms) == sum_of(ns),
    decreases ms.len(),
{
    broadcast use group_to_multiset_ensures;

    if ms.len() == 0 {
        assert(ms.to_multiset().len() == 0);
        assert(ns.to_multiset().len() == ns.len());
        assert(ns =~= ms);
    } else {
        let x = ms.last();
        let rest = ms.drop_last();
        assert(ms =~= rest.push(x));
        assert(ns.to_multiset().count(x) > 0);
        assert(ns.contains(x));
        let j = choose|j: int| 0 <= j < ns.len() && ns[j] == x;
        assert(ns.remove(j).to_multiset() =~= rest.to_multiset());
        lemma_sum_any_order(rest, ns.remove(j));
        lemma_sum_remove(ns, j);
    }
}

/// Summing chunk by chunk gives the sum of all the lines.
proof fn lemma_sum_joined(chunks: Seq<Seq<Map<Counter, nat>>>)
    ensures
        sum_of(joined(chunks)) == sum_of(chunk_totals(chunks)),
    decreases chunks.len(),
{
    if chunks.len() > 0 {
        let init = chunks.drop_last();
        lemma_sum_joined(init);
        lemma_sum_concat(joined(init), chunks.last());
        assert(chunk_totals(chunks).drop_last() =~= chunk_totals(init));
    }
}

/// However the lines of a file are grouped into chunks, and in whatever order
/// the chunk totals are summed, the result is the sum of all the lines.
pub proof fn lemma_chunked_total(
    chunks: Seq<Seq<Map<Counter, nat>>>,
    order: Seq<Map<Counter, nat>>,
)
    requires
        order.to_multiset() == chunk_totals(chunks).to_multiset(),
    ensures
        sum_of(order) == sum_of(joined(chunks)),
{
    lemma_sum_any_order(order, chunk_totals(chunks));
    lemma_sum_joined(chunks);
}

/// Folding more counts in never drops a counter and never lowers a count.
pub proof fn lemma_fold_monotone(ms: Seq<Map<Counter, nat>>, i: int, j: int)
    requires
        0 <= i <= j <= ms.len(),
    ensures
        forall|c: Counter| #[trigger]
            sum_of(ms.subrange(0, i)).contains_key(c) ==> sum_of(ms.subrange(0, j)).contains_key(c),
        forall|c: Counter| #[trigger]
            count_or_zero(sum_of(ms.subrange(0, i)), c) <= count_or_zero(
                sum_of(ms.subrange(0, j)),
                c,
            ),
    decreases j - i,
{
    if i < j {
        lemma_fold_monotone(ms, i, j - 1);
        assert(ms.subrange(0, j).drop_last() =~= ms.subrange(0, j - 1));
    }
}

/// Whether adding `b` into `a` keeps every count within a `usize`.
pub fn can_add(a: &Counted, b: &Counted) -> (r: bool)
    ensures
        r == fits(add_counts(a@, b@)),
{
    let ghost sum = add_counts(a@, b@);
    let r = fits_slot(a.get(Counter::Line), b.get(Counter::Line)) && fits_slot(
        a.get(Counter::Words),
        b.get(Counter::Words),
    ) && fits_slot(a.get(Counter::NumByte), b.get(Counter::NumByte)) && fits_slot(
        a.get(Counter::GraphemeCluster),
        b.get(Counter::GraphemeCluster),
    ) && fits_slot(a.get(Counter::CodePoints), b.get(Counter::CodePoints));
    assert(r ==> forall|c: Counter| #[trigger] count_or_zero(sum, c) <= usize::MAX) by {
        if r {
            assert forall|c: Counter| #[trigger] count_or_zero(sum, c) <= usize::MAX by {
                match c {
                    Counter::Line => {},
                    Counter::Words => {},
                    Counter::NumByte => {},
                    Counter::GraphemeCluster => {},
                    Counter::CodePoints => {},
                }
            }
        }
    }
    assert(!r ==> !fits(sum)) by {
        if !r {
            if !fits_slot_spec(a@, b@, Counter::Line) {
                assert(count_or_zero(sum, Counter::Line) > usize::MAX);
            } else if !fits_slot_spec(a@, b@, Counter::Words) {
                assert(count_or_zero(sum, Counter::Words) > usize::MAX);
            } else if !fits_slot_spec(a@, b@, Counter::NumByte) {
                assert(count_or_zero(sum, Counter::NumByte) > usize::MAX);
            } else if !fits_slot_spec(a@, b@, Counter::GraphemeCluster) {
                assert(count_or_zero(sum, Counter::GraphemeCluster) > usize::MAX);
            } else {
                assert(count_or_zero(sum, Counter::CodePoints) > usize::MAX);
            }
        }
    }
    r
}

spec fn fits_slot_spec(a: Map<Counter, nat>, b: Map<Counter, nat>, c: Counter) -> bool {
    count_or_zero(a, c) + count_or_zero(b, c) <= usize::MAX
}

/// Whether two counts, where present, add up within a `usize`.
fn fits_slot(a: Option<usize>, b: Option<usize>) -> (r: bool)
    ensures
        r == (a.unwrap_or(0) + b.unwrap_or(0) <= usize::MAX),
{
    match (a, b) {
        (Some(x), Some(y)) => x <= usize::MAX - y,
        _ => true,
    }
}

/// What one line read from a file contributes: its counts, or, where the line
/// could not be read, no counts and a failure.
pub open spec fn line_outcome(line: Result<Seq<char>, ()>, counters: Seq<Counter>) -> (
    bool,
    Map<Counter, nat>,
) {
    match line {
        Ok(s) => (true, counts_for(counters, s)),
        Err(_) => (false, Map::empty()),
    }
}

/// The text of a line read from a file, or the mark of a failed read.
pub open spec fn line_text(line: Result<String, UwcError>) -> Result<Seq<char>, ()> {
    match line {
        Ok(s) => Ok(s@),
        Err(_) => Err(()),
    }
}

/// Counts one line of a file, or records that it failed.
pub fn count_line(line: &Result<String, UwcError>, counters: &[Counter]) -> (r: (bool, Counted))
    ensures
        r.0 == line_outcome(line_text(*line), counters@).0,
        r.1@ == line_outcome(line_text(*line), counters@).1,
{
    match line {
        Ok(s) => (true, count(counters, s.as_str())),
        Err(_) => (false, Counted::new()),
    }
}

/// Combines the outcomes of two groups of lines: both must have succeeded, and
/// their counts add up.
pub fn combine(a: (bool, Counted), b: (bool, Counted)) -> (r: (bool, Counted))
    requires
        fits(add_counts(a.1@, b.1@)),
    ensures
        r.0 == (a.0 && b.0),
        r.1@ == add_counts(a.1@, b.1@),
{
    let (a_ok, mut total) = a;
    let (b_ok, counts) = b;
    sum_counts(&mut total, &counts);
    (a_ok && b_ok, total)
}

/// The outcome of a sequence of lines: whether every line succeeded, and the
/// sum of the counts of those that did.
pub open spec fn tally(lines: Seq<Result<Seq<char>, ()>>, counters: Seq<Counter>) -> (
    bool,
    Map<Counter, nat>,
)
    decreases lines.len(),
{
    if lines.len() == 0 {
        (true, Map::empty())
    } else {
        let prev = tally(lines.drop_last(), counters);
        let last = line_outcome(lines.last(), counters);
        (prev.0 && last.0, add_counts(prev.1, last.1))
    }
}

/// A line that fails marks its file as not fully counted and adds nothing to
/// it: the file keeps the counts of the lines before the failure.
pub proof fn lemma_failed_line_adds_nothing(
    lines: Seq<Result<Seq<char>, ()>>,
    counters: Seq<Counter>,
)
    ensures
        tally(lines.push(Err(())), counters) == (false, tally(lines, counters).1),
{
    assert(lines.push(Err(())).drop_last() =~= lines);
    lemma_add_empty(tally(lines, counters).1);
}

/// What reading the bytes `l` of a line gives: its text, or a failure where
/// it is not UTF-8.
pub open spec fn read_text(l: Seq<u8>) -> Result<Seq<char>, ()> {
    if valid_utf8(l) {
        Ok(decode_utf8(l))
    } else {
        Err(())
    }
}

/// What reading each of the lines `ls` gives.
pub open spec fn read_texts(ls: Seq<Seq<u8>>) -> Seq<Result<Seq<char>, ()>> {
    ls.map_values(|l: Seq<u8>| read_text(l))
}

/// Where a line of a stream is not UTF-8, it is the last line read from the
/// stream, every line before it decodes, and the file's outcome is a failure
/// that holds exactly the counts of the lines before it.
pub proof fn lemma_partial_failure(keep: bool, input: Seq<u8>, counters: Seq<Counter>, k: int)
    requires
        0 <= k < stream_lines(keep, input).len(),
        !valid_utf8(stream_lines(keep, input)[k]),
    ensures
        k == stream_lines(keep, input).len() - 1,
        forall|i: int| 0 <= i < k ==> valid_utf8(#[trigger] stream_lines(keep, input)[i]),
        tally(read_texts(stream_lines(keep, input)), counters) == (
            false,
            tally(read_texts(stream_lines(keep, input).subrange(0, k)), counters).1,
        ),
{
    let ls = stream_lines(keep, input);
    lemma_nothing_after_bad_line(keep, input);
    let before = read_texts(ls.subrange(0, k));
    assert(read_texts(ls) =~= before.push(Err(())));
    lemma_failed_line_adds_nothing(before, counters);
}

} // verus!
