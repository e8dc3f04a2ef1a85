//! The counters, and the counts that they give on one piece of text.
use unicode_segmentation::UnicodeSegmentation;
use vstd::prelude::*;
use vstd::string::StrSliceExecFns;
use vstd::utf8::encode_utf8;

use crate::totals::lemma_fold_monotone;
use crate::newline::{
    cr_bytes, crlf_bytes, ff_bytes, is_terminator, lf_bytes, ls_bytes, nel_bytes, ps_bytes,
};

verus! {

/// The extended grapheme clusters of a text, in order.
pub uninterp spec fn graphemes_of(s: Seq<char>) -> Seq<Seq<char>>;

/// The words of a text, in order: the pieces between word boundaries that
/// hold a letter or a number.
pub uninterp spec fn words_of(s: Seq<char>) -> Seq<Seq<char>>;

/// Relies on UnicodeSegmentation::graphemes with extended clusters: the
/// clusters of `s` in order; an empty text has none.
#[verifier::external_body]
fn graphemes(s: &str) -> (r: Vec<&str>)
    ensures
        r@.len() == graphemes_of(s@).len(),
        forall|i: int| 0 <= i < r@.len() ==> #[trigger] r@[i]@ == graphemes_of(s@)[i],
        s@.len() == 0 ==> r@.len() == 0,
{
    s.graphemes(true).collect()
}

/// Relies on UnicodeSegmentation::unicode_words: the words of `s` in order;
/// an empty text has none.
#[verifier::external_body]
fn unicode_words(s: &str) -> (r: Vec<&str>)
    ensures
        r@.len() == words_of(s@).len(),
        forall|i: int| 0 <= i < r@.len() ==> #[trigger] r@[i]@ == words_of(s@)[i],
        s@.len() == 0 ==> r@.len() == 0,
{
    s.unicode_words().collect()
}

/// Different types of counters.
#[derive(Debug, Hash, PartialEq, Eq, Structural, PartialOrd, Ord, Copy, Clone)]
pub enum Counter {
    /// Counts lines.
    Line,
    /// Counts words.
    Words,
    /// Counts the total number of bytes.
    NumByte,
    /// Counts grapheme clusters. The input is required to be valid UTF-8.
    GraphemeCluster,
    /// Counts unicode code points.
    CodePoints,
}

/// A convenience array of all counter types.
pub const ALL_COUNTERS: [Counter; 5] = [
    Counter::GraphemeCluster,
    Counter::NumByte,
    Counter::Line,
    Counter::Words,
    Counter::CodePoints,
];

/// A convenience array of the default counter types.
pub const DEFAULT_COUNTERS: [Counter; 3] = [Counter::Line, Counter::Words, Counter::NumByte];

/// The number of clusters among `gs` that are exactly one line terminator.
pub open spec fn terminator_clusters(gs: Seq<Seq<char>>) -> nat
    decreases gs.len(),
{
    if gs.len() == 0 {
        0
    } else {
        terminator_clusters(gs.drop_last()) + if is_terminator(encode_utf8(gs.last())) {
            1nat
        } else {
            0nat
        }
    }
}

/// What counter `c` counts in the text `s`.
pub open spec fn count_of(c: Counter, s: Seq<char>) -> nat {
    match c {
        Counter::Line => terminator_clusters(graphemes_of(s)),
        Counter::Words => words_of(s).len(),
        Counter::NumByte => encode_utf8(s).len(),
        Counter::GraphemeCluster => graphemes_of(s).len(),
        Counter::CodePoints => s.len(),
    }
}

/// The name of a counter, as a column header.
pub open spec fn counter_name(c: Counter) -> Seq<char> {
    match c {
        Counter::GraphemeCluster => "graphemes"@,
        Counter::NumByte => "bytes"@,
        Counter::Line => "lines"@,
        Counter::Words => "words"@,
        Counter::CodePoints => "codepoints"@,
    }
}

/// The bytes `t` are one terminator exactly when they spell one out.
proof fn lemma_terminator_bytes(t: Seq<u8>)
    ensures
        is_terminator(t) <==> {
            ||| t.len() == 1 && (t[0] == 0x0au8 || t[0] == 0x0du8 || t[0] == 0x0cu8)
            ||| t.len() == 2 && ((t[0] == 0x0du8 && t[1] == 0x0au8) || (t[0] == 0xc2u8 && t[1]
                == 0x85u8))
            ||| t.len() == 3 && t[0] == 0xe2u8 && t[1] == 0x80u8 && (t[2] == 0xa8u8 || t[2]
                == 0xa9u8)
        },
{
    if t.len() == 1 {
        if t[0] == 0x0au8 {
            assert(t =~= lf_bytes());
        } else if t[0] == 0x0du8 {
            assert(t =~= cr_bytes());
        } else if t[0] == 0x0cu8 {
            assert(t =~= ff_bytes());
        }
    } else if t.len() == 2 {
        if t[0] == 0x0du8 && t[1] == 0x0au8 {
            assert(t =~= crlf_bytes());
        } else if t[0] == 0xc2u8 && t[1] == 0x85u8 {
            assert(t =~= nel_bytes());
        }
    } else if t.len() == 3 && t[0] == 0xe2u8 && t[1] == 0x80u8 {
        if t[2] == 0xa8u8 {
            assert(t =~= ls_bytes());
        } else if t[2] == 0xa9u8 {
            assert(t =~= ps_bytes());
        }
    }
}

/// Whether the cluster `g` is exactly one line terminator.
fn is_terminator_cluster(g: &str) -> (r: bool)
    ensures
        r == is_terminator(encode_utf8(g@)),
{
    let b = g.as_bytes();
    proof {
        lemma_terminator_bytes(b@);
    }
    let n = b.len();
    if n == 1 {
        b[0] == 0x0a || b[0] == 0x0d || b[0] == 0x0c
    } else if n == 2 {
        (b[0] == 0x0d && b[1] == 0x0a) || (b[0] == 0xc2 && b[1] == 0x85)
    } else if n == 3 {
        b[0] == 0xe2 && b[1] == 0x80 && (b[2] == 0xa8 || b[2] == 0xa9)
    } else {
        false
    }
}

/// Counts the clusters of `s` that are exactly one line terminator.
fn count_terminator_clusters(s: &str) -> (r: usize)
    ensures
        r == terminator_clusters(graphemes_of(s@)),
        s@.len() == 0 ==> r == 0,
{
    let gs = graphemes(s);
    let ghost views = graphemes_of(s@);
    let mut n: usize = 0;
    let mut i: usize = 0;
    while i < gs.len()
        invariant
            i <= gs.len(),
            views == graphemes_of(s@),
            gs@.len() == views.len(),
            forall|j: int| 0 <= j < gs@.len() ==> #[trigger] gs@[j]@ == views[j],
            n <= i,
            n == terminator_clusters(views.subrange(0, i as int)),
        decreases gs.len() - i,
    {
        assert(views.subrange(0, i + 1).drop_last() =~= views.subrange(0, i as int));
        if is_terminator_cluster(gs[i]) {
            n = n + 1;
        }
        i = i + 1;
    }
    assert(views.subrange(0, i as int) =~= views);
    n
}

/// Something that counts things in `&str`s.
pub trait Count {
    /// Counts something in the given `&str`.
    fn count(&self, s: &str) -> usize;
}

impl Count for Counter {
    fn count(&self, s: &str) -> (r: usize)
        ensures
            r == count_of(*self, s@),
            s@.len() == 0 ==> r == 0,
    {
        match *self {
            Counter::GraphemeCluster => graphemes(s).len(),
            Counter::NumByte => s.as_bytes().len(),
            Counter::Line => count_terminator_clusters(s),
            Counter::Words => unicode_words(s).len(),
            Counter::CodePoints => s.unicode_len(),
        }
    }
}

impl Counter {
    /// The name of the counter, as a column header.
    pub fn to_string(&self) -> (r: String)
        ensures
            r@ == counter_name(*self),
    {
        let name: &str = match *self {
            Counter::GraphemeCluster => "graphemes",
            Counter::NumByte => "bytes",
            Counter::Line => "lines",
            Counter::Words => "words",
            Counter::CodePoints => "codepoints",
        };
        name.to_owned()
    }
}

/// The count that `m` holds for `c`, as a one-element sequence, or nothing.
pub open spec fn entry(m: Map<Counter, nat>, c: Counter) -> Seq<nat> {
    if m.contains_key(c) {
        seq![m[c]]
    } else {
        seq![]
    }
}

/// The counts that `m` holds, in column order.
pub open spec fn column_values(m: Map<Counter, nat>) -> Seq<nat> {
    entry(m, Counter::Line) + entry(m, Counter::Words) + entry(m, Counter::NumByte) + entry(
        m,
        Counter::GraphemeCluster,
    ) + entry(m, Counter::CodePoints)
}

/// The count of `c` in `m`, where an absent counter counts 0.
pub open spec fn count_or_zero(m: Map<Counter, nat>, c: Counter) -> nat {
    if m.contains_key(c) {
        m[c]
    } else {
        0
    }
}

/// Key-wise sum of two sets of counts; a counter present in either is present.
pub open spec fn add_counts(a: Map<Counter, nat>, b: Map<Counter, nat>) -> Map<Counter, nat> {
    Map::new(
        |c: Counter| a.contains_key(c) || b.contains_key(c),
        |c: Counter| count_or_zero(a, c) + count_or_zero(b, c),
    )
}

/// The sum of a sequence of counts, folded from the left.
pub open spec fn sum_of(ms: Seq<Map<Counter, nat>>) -> Map<Counter, nat>
    decreases ms.len(),
{
    if ms.len() == 0 {
        Map::empty()
    } else {
        add_counts(sum_of(ms.drop_last()), ms.last())
    }
}

/// Every count of `m` fits in a `usize`.
pub open spec fn fits(m: Map<Counter, nat>) -> bool {
    forall|c: Counter| #[trigger] count_or_zero(m, c) <= usize::MAX
}

/// The counts that a sequence of `Counted` holds.
pub open spec fn views(cs: Seq<Counted>) -> Seq<Map<Counter, nat>> {
    cs.map_values(|c: Counted| c@)
}

/// The counts of the counters `cs` on the text `s`.
pub open spec fn counts_for(cs: Seq<Counter>, s: Seq<char>) -> Map<Counter, nat> {
    Map::new(|c: Counter| cs.contains(c), |c: Counter| count_of(c, s))
}

/// Counts by counter. The counters present are those that were requested;
/// they are listed in the order of `Counter`.
#[derive(Debug, Clone, Copy, PartialEq, Eq)]
pub struct Counted {
    lines: Option<usize>,
    words: Option<usize>,
    bytes: Option<usize>,
    graphemes: Option<usize>,
    codepoints: Option<usize>,
}

impl Counted {
    /// The slot that holds the count of `c`.
    pub closed spec fn slot(&self, c: Counter) -> Option<usize> {
        match c {
            Counter::Line => self.lines,
            Counter::Words => self.words,
            Counter::NumByte => self.bytes,
            Counter::GraphemeCluster => self.graphemes,
            Counter::CodePoints => self.codepoints,
        }
    }
}

impl View for Counted {
    type V = Map<Counter, nat>;

    closed spec fn view(&self) -> Map<Counter, nat> {
        Map::new(|c: Counter| self.slot(c) is Some, |c: Counter| self.slot(c)->Some_0 as nat)
    }
}

/// The sum of two slots; a slot that either side fills is filled.
fn add_slot(a: Option<usize>, b: Option<usize>) -> (r: Option<usize>)
    requires
        a.unwrap_or(0) + b.unwrap_or(0) <= usize::MAX,
    ensures
        r is Some <==> (a is Some || b is Some),
        r is Some ==> r->Some_0 == a.unwrap_or(0) + b.unwrap_or(0),
{
    match (a, b) {
        (None, None) => None,
        (Some(x), None) => Some(x),
        (None, Some(y)) => Some(y),
        (Some(x), Some(y)) => Some(x + y),
    }
}

impl Counted {
    /// No counts.
    pub fn new() -> (r: Counted)
        ensures
            r@ == Map::<Counter, nat>::empty(),
    {
        let r = Counted { lines: None, words: None, bytes: None, graphemes: None, codepoints: None };
        assert(r@ =~= Map::<Counter, nat>::empty());
        r
    }

    /// The count of `c`, if `c` is present.
    pub fn get(&self, c: Counter) -> (r: Option<usize>)
        ensures
            r is Some <==> self@.contains_key(c),
            r is Some ==> r->Some_0 == self@[c],
    {
        match c {
            Counter::Line => self.lines,
            Counter::Words => self.words,
            Counter::NumByte => self.bytes,
            Counter::GraphemeCluster => self.graphemes,
            Counter::CodePoints => self.codepoints,
        }
    }

    /// Sets the count of `c` to `n`.
    pub fn insert(&mut self, c: Counter, n: usize)
        ensures
            final(self)@ == old(self)@.insert(c, n as nat),
    {
        match c {
            Counter::Line => self.lines = Some(n),
            Counter::Words => self.words = Some(n),
            Counter::NumByte => self.bytes = Some(n),
            Counter::GraphemeCluster => self.graphemes = Some(n),
            Counter::CodePoints => self.codepoints = Some(n),
        }
        assert(self@ =~= old(self)@.insert(c, n as nat));
    }

    /// The counts present, in the order of `Counter`.
    pub fn values(&self) -> (r: Vec<usize>)
        ensures
            r@.len() == column_values(self@).len(),
            forall|i: int| 0 <= i < r@.len() ==> r@[i] as nat == #[trigger] column_values(self@)[i],
    {
        let mut r: Vec<usize> = Vec::new();
        if let Some(n) = self.lines {
            r.push(n);
        }
        if let Some(n) = self.words {
            r.push(n);
        }
        if let Some(n) = self.bytes {
            r.push(n);
        }
        if let Some(n) = self.graphemes {
            r.push(n);
        }
        if let Some(n) = self.codepoints {
            r.push(n);
        }
        assert(r@.map_values(|n: usize| n as nat) =~= column_values(self@));
        r
    }
}

/// Take all the counts in `other_counts` and sum them into `accum`.
pub fn sum_counts(accum: &mut Counted, other_counts: &Counted)
    requires
        fits(add_counts(old(accum)@, other_counts@)),
    ensures
        final(accum)@ == add_counts(old(accum)@, other_counts@),
{
    let ghost sum = add_counts(old(accum)@, other_counts@);
    assert(count_or_zero(sum, Counter::Line) <= usize::MAX);
    assert(count_or_zero(sum, Counter::Words) <= usize::MAX);
    assert(count_or_zero(sum, Counter::NumByte) <= usize::MAX);
    assert(count_or_zero(sum, Counter::GraphemeCluster) <= usize::MAX);
    assert(count_or_zero(sum, Counter::CodePoints) <= usize::MAX);
    accum.lines = add_slot(accum.lines, other_counts.lines);
    accum.words = add_slot(accum.words, other_counts.words);
    accum.bytes = add_slot(accum.bytes, other_counts.bytes);
    accum.graphemes = add_slot(accum.graphemes, other_counts.graphemes);
    accum.codepoints = add_slot(accum.codepoints, other_counts.codepoints);
    assert(accum@ =~= sum);
}

/// Counts the given `Counter`s in the given `&str`.
pub fn count(counters: &[Counter], s: &str) -> (r: Counted)
    ensures
        r@ == counts_for(counters@, s@),
        s@.len() == 0 ==> forall|c: Counter| #[trigger] r@.contains_key(c) ==> r@[c] == 0,
{
    let mut counts = Counted::new();
    let mut i: usize = 0;
    while i < counters.len()
        invariant
            i <= counters@.len(),
            counts@ == counts_for(counters@.subrange(0, i as int), s@),
            s@.len() == 0 ==> forall|c: Counter| #[trigger]
                counts@.contains_key(c) ==> counts@[c] == 0,
        decreases counters@.len() - i,
    {
        let c = counters[i];
        let n = c.count(s);
        counts.insert(c, n);
        assert(counts@ =~= counts_for(counters@.subrange(0, i + 1), s@)) by {
            let prev = counters@.subrange(0, i as int);
            let next = counters@.subrange(0, i + 1);
            assert forall|x: Counter| next.contains(x) <==> (prev.contains(x) || x == c) by {
                if prev.contains(x) {
                    let j = choose|j: int| 0 <= j < prev.len() && prev[j] == x;
                    assert(next[j] == x);
                }
                if x == c {
                    assert(next[i as int] == c);
                }
                if next.contains(x) {
                    let j = choose|j: int| 0 <= j < next.len() && next[j] == x;
                    if j < i {
                        assert(prev[j] == x);
                    }
                }
            }
        }
        i = i + 1;
    }
    assert(counters@.subrange(0, i as int) =~= counters@);
    counts
}

/// Sums all the `Counted` instances into a new one.
pub fn sum_all_counts(counts: &[Counted]) -> (r: Counted)
    requires
        fits(sum_of(views(counts@))),
    ensures
        r@ == sum_of(views(counts@)),
{
    let ghost all = views(counts@);
    let mut totals = Counted::new();
    let mut i: usize = 0;
    while i < counts.len()
        invariant
            i <= counts@.len(),
            all == views(counts@),
            all.len() == counts@.len(),
            fits(sum_of(all)),
            totals@ == sum_of(all.subrange(0, i as int)),
        decreases counts@.len() - i,
    {
        proof {
            lemma_fold_monotone(all, i + 1, all.len() as int);
            assert(all.subrange(0, i + 1).drop_last() =~= all.subrange(0, i as int));
            assert(all.subrange(0, all.len() as int) =~= all);
            assert(all.subrange(0, i + 1).last() == counts@[i as int]@);
            assert(sum_of(all.subrange(0, i + 1)) == add_counts(totals@, counts@[i as int]@));
            assert forall|c: Counter| #[trigger]
                count_or_zero(add_counts(totals@, counts@[i as int]@), c) <= usize::MAX by {
                assert(count_or_zero(sum_of(all), c) <= usize::MAX);
            }
        }
        sum_counts(&mut totals, &counts[i]);
        i = i + 1;
    }
    assert(all.subrange(0, i as int) =~= all);
    totals
}

} // verus!
