//! Splits a byte stream into lines, each ending at a recognized terminator or
//! at the end of the stream, and decodes each line as UTF-8.
//!
//! The splitter is a state machine: its driver fetches a block of bytes from
//! the source, hands it to `UStrChunksIter::advance`, drops from the source as
//! many bytes as the answer says, and either fetches again or has the next line.
//! Where a block ends inside a terminator, or right after a carriage return
//! that a line feed may follow, the splitter waits for the next block, so the
//! lines depend on the bytes of the stream only, not on how they are fetched.
use vstd::prelude::*;
use vstd::utf8::{
    decode_utf8, is_char_boundary, is_char_boundary_iff_not_is_continuation_byte,
    is_char_boundary_start_end_of_seq, is_continuation_byte, length_of_first_scalar, valid_utf8,
    valid_utf8_split,
};

use crate::error::UwcError;
use crate::newline::{
    crlf_bytes, first_terminator, first_terminator_from, is_terminator, lemma_first_terminator_bounds,
    lemma_leftmost, lemma_prefix_agree, lemma_settled_is_final, lemma_shift_first, lemma_skip,
    lemma_terminator_at, lemma_terminator_first_byte, ls_bytes, nel_bytes, occurs_at, ps_bytes,
    settled, terminator_at, terminator_len_at, NewlineMatcher,
};

verus! {

/// `n` is the length of the longest prefix of `b` that is valid UTF-8.
pub open spec fn longest_valid_prefix(b: Seq<u8>, n: int) -> bool {
    &&& 0 <= n <= b.len()
    &&& valid_utf8(b.subrange(0, n))
    &&& forall|m: int| n < m <= b.len() ==> !valid_utf8(#[trigger] b.subrange(0, m))
}

/// Relies on String::from_utf8: `Ok` exactly when the bytes are valid UTF-8,
/// holding the text that they encode. Otherwise its error gives the bytes back
/// (`FromUtf8Error::into_bytes`) with the length of their longest valid prefix
/// (`Utf8Error::valid_up_to`).
#[verifier::external_body]
fn string_from_utf8(bytes: Vec<u8>) -> (r: Result<String, (usize, Vec<u8>)>)
    ensures
        r is Ok <==> valid_utf8(bytes@),
        r matches Ok(s) ==> s@ == decode_utf8(bytes@),
        r matches Err((n, b)) ==> b@ == bytes@ && longest_valid_prefix(bytes@, n as int),
{
    String::from_utf8(bytes).map_err(|e| (e.utf8_error().valid_up_to(), e.into_bytes()))
}

/// What the splitter holds between two blocks.
pub struct SplitState {
    /// Bytes read from the source that belong to the line being built.
    pub pending: Seq<u8>,
    /// False once the stream has ended or failed, or a line did not decode.
    pub reading: bool,
    /// Whether a line keeps the terminator that ends it.
    pub keep_terminator: bool,
}

/// What the splitter asks of its driver after one block.
pub enum Advance {
    /// Drop this many bytes from the source, then hand over the next block.
    Pull(nat),
    /// Drop this many bytes from the source; the production ends with these
    /// bytes as a line, or with no line.
    Emit(nat, Option<Seq<u8>>),
}

/// Where a line ends: after its terminator, or before it.
pub open spec fn line_end(keep: bool, s: int, e: int) -> int {
    if keep {
        e
    } else {
        s
    }
}

/// One transition of the splitter on a block fetched from the source (an
/// empty block means that the source is exhausted). The leftmost terminator
/// of the pending bytes and the block ends a line once it is settled.
pub open spec fn advance_spec(st: SplitState, block: Seq<u8>) -> (SplitState, Advance) {
    let p = st.pending.len() as int;
    if !st.reading {
        (st, Advance::Emit(0, None))
    } else if block.len() == 0 {
        if p == 0 {
            (SplitState { reading: false, ..st }, Advance::Emit(0, None))
        } else {
            match first_terminator(st.pending) {
                Some((s, e)) => {
                    let line = st.pending.subrange(0, line_end(st.keep_terminator, s, e));
                    (
                        SplitState {
                            pending: st.pending.subrange(e, p),
                            reading: valid_utf8(line),
                            ..st
                        },
                        Advance::Emit(0, Some(line)),
                    )
                },
                None => (
                    SplitState { pending: Seq::empty(), reading: false, ..st },
                    Advance::Emit(0, Some(st.pending)),
                ),
            }
        }
    } else {
        let x = st.pending + block;
        let pull = (SplitState { pending: x, ..st }, Advance::Pull(block.len()));
        match first_terminator(x) {
            Some((s, e)) => if settled(x, s, e) {
                let line = x.subrange(0, line_end(st.keep_terminator, s, e));
                (
                    SplitState {
                        pending: if e < p {
                            st.pending.subrange(e, p)
                        } else {
                            Seq::empty()
                        },
                        reading: valid_utf8(line),
                        ..st
                    },
                    Advance::Emit(
                        if e < p {
                            0
                        } else {
                            (e - p) as nat
                        },
                        Some(line),
                    ),
                )
            } else {
                pull
            },
            None => pull,
        }
    }
}

/// `item` is what decoding the bytes `line` gives: its text, or an error that
/// holds the bytes and the length of their valid prefix.
pub open spec fn decoded(item: Result<String, UwcError>, line: Seq<u8>) -> bool {
    match item {
        Ok(s) => valid_utf8(line) && s@ == decode_utf8(line),
        Err(e) => !valid_utf8(line) && (e matches UwcError::Utf8Error { bytes, valid_up_to }
            && bytes@ == line && longest_valid_prefix(line, valid_up_to as int)),
    }
}

/// The answer `r` carries out the transition `a`.
pub open spec fn step_follows(r: Step, a: Advance) -> bool {
    match r {
        Step::Pull(n) => a == Advance::Pull(n as nat),
        Step::Emit(n, None) => a == Advance::Emit(n as nat, None),
        Step::Emit(n, Some(item)) => match a {
            Advance::Emit(m, Some(line)) => m == n && decoded(item, line),
            _ => false,
        },
    }
}

/// The splitter's answer to one block.
pub enum Step {
    /// Drop this many bytes from the source, then hand over the next block.
    Pull(usize),
    /// Drop this many bytes from the source; the production ends with this
    /// line, or with no line once the stream is over.
    Emit(usize, Option<Result<String, UwcError>>),
}

/// Where the last two bytes of `plen` pending bytes start.
pub open spec fn tail_start(plen: int) -> int {
    if plen >= 2 {
        plen - 2
    } else {
        0
    }
}

/// No terminator starts in `p` before its last byte.
pub open spec fn quiet(p: Seq<u8>) -> bool {
    forall|i: int| 0 <= i < p.len() - 1 ==> #[trigger] terminator_len_at(p, i) == 0
}

/// Splits a byte stream into lines. It reads lines much as `BufRead::lines`
/// does, but keeps the terminator when asked, for accurate counts.
pub struct UStrChunksIter<'a> {
    /// Finds the terminators.
    matcher: &'a NewlineMatcher,
    /// False once the source has ended or failed, or a line did not decode.
    keep_reading: bool,
    /// Whether a line keeps the terminator that ends it.
    keep_newline: bool,
    /// Bytes read so far of the line being built.
    buf: Vec<u8>,
}

impl<'a> View for UStrChunksIter<'a> {
    type V = SplitState;

    closed spec fn view(&self) -> SplitState {
        SplitState { pending: self.buf@, reading: self.keep_reading, keep_terminator: self.keep_newline }
    }
}

/// A leftmost terminator of the pending bytes and a block, where the pending
/// bytes are quiet, ends in the block or at its start.
proof fn lemma_match_reaches_block(p: Seq<u8>, x: Seq<u8>, s: int, e: int)
    requires
        quiet(p),
        p.len() <= x.len(),
        p == x.subrange(0, p.len() as int),
        first_terminator(x) == Some((s, e)),
    ensures
        e >= p.len(),
{
    lemma_first_terminator_bounds(x, 0);
    lemma_terminator_first_byte(x, s);
    if s + 3 <= p.len() {
        lemma_prefix_agree(p, x, s);
        assert(terminator_len_at(p, s) == 0);
    } else if s + 2 == p.len() {
        assert(p[s] == x[s]);
        assert(p[s + 1] == x[s + 1]);
        if !(x[s] == 0xe2u8 && x[s + 1] == 0x80u8) {
            lemma_prefix_agree(p, x, s);
            assert(terminator_len_at(p, s) == 0);
        }
    }
}

impl<'a> UStrChunksIter<'a> {
    #[verifier::type_invariant]
    spec fn inv(&self) -> bool {
        quiet(self.buf@)
    }

    /// A splitter at the start of a stream.
    pub fn new(matcher: &'a NewlineMatcher, keep_newline: bool) -> (r: UStrChunksIter<'a>)
        ensures
            r@ == (SplitState { pending: Seq::empty(), reading: true, keep_terminator: keep_newline }),
    {
        UStrChunksIter { matcher, keep_reading: true, keep_newline, buf: Vec::new() }
    }

    /// Whether the sequence of lines is over: the source ended or failed, or a
    /// line did not decode.
    pub fn is_finished(&self) -> (r: bool)
        ensures
            r == !self@.reading,
    {
        !self.keep_reading
    }

    /// Decodes `line`, and stops the sequence where it is not UTF-8.
    fn decode_line(&mut self, line: Vec<u8>) -> (r: Result<String, UwcError>)
        ensures
            decoded(r, line@),
            final(self)@ == (SplitState { reading: old(self)@.reading && valid_utf8(line@), ..old(self)@ }),
    {
        proof {
            use_type_invariant(&*self);
        }
        match string_from_utf8(line) {
            Ok(s) => Ok(s),
            Err((valid_up_to, bytes)) => {
                self.keep_reading = false;
                Err(UwcError::Utf8Error { bytes, valid_up_to })
            },
        }
    }

    /// Takes the bytes of the line being built, leaving none.
    fn take_pending(&mut self) -> (r: Vec<u8>)
        ensures
            r@ == old(self)@.pending,
            final(self)@ == (SplitState { pending: Seq::empty(), ..old(self)@ }),
    {
        let mut line: Vec<u8> = Vec::new();
        std::mem::swap(&mut line, &mut self.buf);
        line
    }

    /// The transition at the end of the stream.
    fn finish(&mut self) -> (r: Step)
        requires
            old(self)@.reading,
        ensures
            final(self)@ == advance_spec(old(self)@, Seq::empty()).0,
            step_follows(r, advance_spec(old(self)@, Seq::empty()).1),
    {
        proof {
            use_type_invariant(&*self);
        }
        if self.buf.len() == 0 {
            self.keep_reading = false;
            return Step::Emit(0, None);
        }
        match self.matcher.find(self.buf.as_slice()) {
            Some((s, e)) => {
                proof {
                    lemma_first_terminator_bounds(self.buf@, 0);
                    assert(self.buf@.subrange(e as int, self.buf@.len() as int) =~= Seq::<u8>::empty());
                }
                let end = if self.keep_newline {
                    e
                } else {
                    s
                };
                let mut line = self.take_pending();
                line.truncate(end);
                assert(line@ =~= old(self)@.pending.subrange(0, end as int));
                let item = self.decode_line(line);
                Step::Emit(0, Some(item))
            },
            None => {
                self.keep_reading = false;
                let line = self.take_pending();
                let item = self.decode_line(line);
                Step::Emit(0, Some(item))
            },
        }
    }

    /// Searches the last two pending bytes and `block` for the leftmost
    /// terminator of the pending bytes followed by `block`; gives it, counted
    /// from the start of those two bytes, only where it is settled.
    #[verifier::rlimit(60)]
    fn find_settled(&self, block: &[u8]) -> (r: Option<(usize, usize)>)
        requires
            block@.len() > 0,
        ensures
            ({
                let x = self@.pending + block@;
                let k = tail_start(self@.pending.len() as int);
                match r {
                    Some((ws, we)) => first_terminator(x) == Some((k + ws, k + we)) && settled(
                        x,
                        k + ws,
                        k + we,
                    ) && k + we >= self@.pending.len(),
                    None => match first_terminator(x) {
                        Some((s, e)) => !settled(x, s, e),
                        None => true,
                    },
                }
            }),
    {
        proof {
            use_type_invariant(self);
        }
        let plen = self.buf.len();
        let k: usize = if plen >= 2 {
            plen - 2
        } else {
            0
        };
        let mut window: Vec<u8> = Vec::new();
        window.extend_from_slice(&self.buf.as_slice()[k..plen]);
        window.extend_from_slice(block);
        let ghost p = self.buf@;
        let ghost x = self.buf@ + block@;
        proof {
            assert(window@ =~= x.subrange(k as int, x.len() as int));
            assert(p =~= x.subrange(0, p.len() as int));
            assert forall|i: int| 0 <= i < k implies #[trigger] terminator_len_at(x, i) == 0 by {
                lemma_prefix_agree(p, x, i);
                assert(terminator_len_at(p, i) == 0);
            }
            lemma_skip(x, 0, k as int);
            lemma_shift_first(x, k as int, 0);
        }
        match self.matcher.find(window.as_slice()) {
            Some((ws, we)) => {
                proof {
                    lemma_first_terminator_bounds(window@, 0);
                    assert(x[k + ws] == window@[ws as int]);
                }
                if we == window.len() && we == ws + 1 && window[ws] == 0x0d {
                    None
                } else {
                    proof {
                        lemma_match_reaches_block(p, x, k + ws, k + we);
                    }
                    Some((ws, we))
                }
            },
            None => None,
        }
    }

    /// Takes in one block fetched from the source; an empty block means that
    /// the source is exhausted.
    pub fn advance(&mut self, block: &[u8]) -> (r: Step)
        ensures
            final(self)@ == advance_spec(old(self)@, block@).0,
            step_follows(r, advance_spec(old(self)@, block@).1),
    {
        proof {
            use_type_invariant(&*self);
        }
        if !self.keep_reading {
            return Step::Emit(0, None);
        }
        if block.len() == 0 {
            return self.finish();
        }
        let plen = self.buf.len();
        let k: usize = if plen >= 2 {
            plen - 2
        } else {
            0
        };
        let d = plen - k;
        let ghost x = self.buf@ + block@;
        if let Some((ws, we)) = self.find_settled(block) {
            proof {
                lemma_first_terminator_bounds(x, 0);
            }
            let end_w = if self.keep_newline {
                we
            } else {
                ws
            };
            let mut line = self.take_pending();
            if end_w < d {
                line.truncate(k + end_w);
            } else {
                line.extend_from_slice(&block[0..end_w - d]);
            }
            assert(line@ =~= x.subrange(0, k + end_w));
            let item = self.decode_line(line);
            return Step::Emit(we - d, Some(item));
        }
        proof {
            lemma_leftmost(x, 0);
            lemma_first_terminator_bounds(x, 0);
        }
        let mut line = self.take_pending();
        line.extend_from_slice(block);
        assert(line@ =~= x);
        self.buf = line;
        Step::Pull(block.len())
    }

    /// Takes in a failure of the source, which ends the sequence.
    pub fn fail(&mut self, err: std::io::Error) -> (r: Option<Result<String, UwcError>>)
        ensures
            final(self)@ == (SplitState { reading: false, ..old(self)@ }),
            old(self)@.reading ==> r == Some(Err::<String, UwcError>(UwcError::IoError(err))),
            !old(self)@.reading ==> r is None,
    {
        proof {
            use_type_invariant(&*self);
        }
        if !self.keep_reading {
            return None;
        }
        self.keep_reading = false;
        Some(Err(UwcError::IoError(err)))
    }
}

/// The lines of a stream, in bytes: each runs to the leftmost terminator of
/// what is left (keeping it or not), the last one to the end of the stream. A
/// line that is not valid UTF-8 is produced as an error and is the last.
pub open spec fn stream_lines(keep: bool, y: Seq<u8>) -> Seq<Seq<u8>>
    decreases y.len(),
{
    if y.len() == 0 {
        Seq::empty()
    } else {
        match first_terminator(y) {
            None => seq![y],
            Some((s, e)) => {
                proof {
                    lemma_first_terminator_bounds(y, 0);
                }
                let line = y.subrange(0, line_end(keep, s, e));
                if valid_utf8(line) {
                    seq![line] + stream_lines(keep, y.subrange(e, y.len() as int))
                } else {
                    seq![line]
                }
            },
        }
    }
}

/// The state of a splitter at the start of a stream.
pub open spec fn start_state(keep_terminator: bool) -> SplitState {
    SplitState { pending: Seq::empty(), reading: true, keep_terminator }
}

/// The block that a fetch hands over when it may hand over up to `want` bytes
/// of what the source still holds: at least one byte while any remain.
pub open spec fn offered(rest: Seq<u8>, want: nat) -> Seq<u8> {
    let n = if want == 0 {
        1
    } else {
        want
    };
    if n <= rest.len() {
        rest.subrange(0, n as int)
    } else {
        rest
    }
}

/// The bytes of the lines that a splitter in state `st` produces, when the
/// source still holds `rest` and its successive fetches hand over up to
/// `sizes[0]`, `sizes[1]`, ... bytes (one at a time once `sizes` runs out).
pub open spec fn lines_from(st: SplitState, rest: Seq<u8>, sizes: Seq<nat>) -> Seq<Seq<u8>>
    decreases rest.len(), st.pending.len(), if st.reading {
        1int
    } else {
        0int
    },
{
    if !st.reading {
        Seq::empty()
    } else {
        let block = offered(
            rest,
            if sizes.len() > 0 {
                sizes[0]
            } else {
                1
            },
        );
        let later = if sizes.len() > 0 {
            sizes.drop_first()
        } else {
            sizes
        };
        let (next, step) = advance_spec(st, block);
        proof {
            lemma_first_terminator_bounds(st.pending + block, 0);
            lemma_first_terminator_bounds(st.pending, 0);
        }
        match step {
            Advance::Pull(n) => lines_from(next, rest.subrange(n as int, rest.len() as int), later),
            Advance::Emit(_, None) => Seq::empty(),
            Advance::Emit(n, Some(line)) => seq![line] + lines_from(
                next,
                rest.subrange(n as int, rest.len() as int),
                later,
            ),
        }
    }
}

/// The lines put back together.
pub open spec fn concat_lines(ls: Seq<Seq<u8>>) -> Seq<u8>
    decreases ls.len(),
{
    if ls.len() == 0 {
        Seq::empty()
    } else {
        ls[0] + concat_lines(ls.drop_first())
    }
}

/// Whatever the sizes of the blocks that the source hands over, the splitter
/// produces the lines of the stream: its pending bytes followed by what the
/// source still holds.
#[verifier::rlimit(60)]
pub proof fn lemma_lines_follow_stream(st: SplitState, rest: Seq<u8>, sizes: Seq<nat>)
    requires
        st.reading,
    ensures
        lines_from(st, rest, sizes) == stream_lines(st.keep_terminator, st.pending + rest),
    decreases rest.len(), st.pending.len(), 1int,
{
    let keep = st.keep_terminator;
    let p = st.pending.len() as int;
    let y = st.pending + rest;
    let block = offered(
        rest,
        if sizes.len() > 0 {
            sizes[0]
        } else {
            1
        },
    );
    let later = if sizes.len() > 0 {
        sizes.drop_first()
    } else {
        sizes
    };
    let (next, step) = advance_spec(st, block);
    let ls = lines_from(st, rest, sizes);
    lemma_first_terminator_bounds(st.pending + block, 0);
    lemma_first_terminator_bounds(st.pending, 0);
    lemma_first_terminator_bounds(y, 0);
    if block.len() == 0 {
        assert(rest.len() == 0);
        assert(y =~= st.pending);
        let rest2 = rest.subrange(0, rest.len() as int);
        assert(rest2 =~= rest);
        if p > 0 {
            match first_terminator(st.pending) {
                Some((s, e)) => {
                    let line = st.pending.subrange(0, line_end(keep, s, e));
                    assert(ls == seq![line] + lines_from(next, rest2, later));
                    if valid_utf8(line) {
                        lemma_lines_follow_stream(next, rest2, later);
                        assert(next.pending + rest2 =~= y.subrange(e, y.len() as int));
                    } else {
                        assert(lines_from(next, rest2, later) =~= Seq::<Seq<u8>>::empty());
                        assert(ls =~= seq![line]);
                    }
                },
                None => {
                    assert(lines_from(next, rest2, later) =~= Seq::<Seq<u8>>::empty());
                    assert(ls =~= seq![st.pending]);
                },
            }
        }
    } else {
        let x = st.pending + block;
        assert(block =~= rest.subrange(0, block.len() as int));
        assert(x =~= y.subrange(0, x.len() as int));
        match first_terminator(x) {
            Some((s, e)) => {
                if settled(x, s, e) {
                    lemma_settled_is_final(x, y, 0, s, e);
                    let line = x.subrange(0, line_end(keep, s, e));
                    assert(line =~= y.subrange(0, line_end(keep, s, e)));
                    let c: int = if e < p {
                        0
                    } else {
                        e - p
                    };
                    let rest2 = rest.subrange(c, rest.len() as int);
                    assert(ls == seq![line] + lines_from(next, rest2, later));
                    if valid_utf8(line) {
                        lemma_lines_follow_stream(next, rest2, later);
                        assert(next.pending + rest2 =~= y.subrange(e, y.len() as int));
                    } else {
                        assert(lines_from(next, rest2, later) =~= Seq::<Seq<u8>>::empty());
                        assert(ls =~= seq![line]);
                    }
                } else {
                    let rest2 = rest.subrange(block.len() as int, rest.len() as int);
                    lemma_lines_follow_stream(next, rest2, later);
                    assert(next.pending + rest2 =~= y);
                }
            },
            None => {
                let rest2 = rest.subrange(block.len() as int, rest.len() as int);
                lemma_lines_follow_stream(next, rest2, later);
                assert(next.pending + rest2 =~= y);
            },
        }
    }
}

/// In valid UTF-8, where a character starts, the next one starts right after
/// its encoding.
proof fn lemma_next_boundary(x: Seq<u8>, q: int)
    requires
        valid_utf8(x),
        0 <= q < x.len(),
        is_char_boundary(x, q),
    ensures
        is_char_boundary(x, q + length_of_first_scalar(x.subrange(q, x.len() as int))),
{
    let s = x.subrange(q, x.len() as int);
    valid_utf8_split(x, q);
    let l = length_of_first_scalar(s);
    assert(is_char_boundary(s, l)) by {
        reveal_with_fuel(is_char_boundary, 2);
        reveal_with_fuel(valid_utf8, 2);
    }
    if q + l < x.len() {
        is_char_boundary_iff_not_is_continuation_byte(s, l);
        assert(s[l] == x[q + l]);
        is_char_boundary_iff_not_is_continuation_byte(x, q + l);
    } else {
        is_char_boundary_start_end_of_seq(x);
    }
}

/// A byte that is not a continuation byte starts a character, and the
/// character after it starts `w` bytes on, where `w` is the width that the
/// byte announces.
proof fn lemma_step_boundary(x: Seq<u8>, q: int, w: int)
    requires
        valid_utf8(x),
        0 <= q < x.len(),
        !is_continuation_byte(x[q]),
        (w == 1 && x[q] <= 0x7f) || (w == 2 && 0xc0 <= x[q] <= 0xdf) || (w == 3 && 0xe0 <= x[q]
            <= 0xef),
    ensures
        is_char_boundary(x, q),
        is_char_boundary(x, q + w),
{
    is_char_boundary_iff_not_is_continuation_byte(x, q);
    lemma_next_boundary(x, q);
    assert(x.subrange(q, x.len() as int)[0] == x[q]);
}

/// In valid UTF-8, a character starts right after every terminator.
proof fn lemma_terminator_end_boundary(x: Seq<u8>, q: int, t: Seq<u8>)
    requires
        valid_utf8(x),
        occurs_at(x, q, t),
        is_terminator(t),
    ensures
        is_char_boundary(x, q + t.len()),
{
    assert(x.subrange(q, q + t.len())[0] == x[q]);
    if t == crlf_bytes() {
        assert(x.subrange(q, q + t.len())[1] == x[q + 1]);
        lemma_step_boundary(x, q, 1);
        lemma_step_boundary(x, q + 1, 1);
    } else if t == nel_bytes() {
        lemma_step_boundary(x, q, 2);
    } else if t == ls_bytes() || t == ps_bytes() {
        lemma_step_boundary(x, q, 3);
    } else {
        lemma_step_boundary(x, q, 1);
    }
}

/// Keeping terminators, the lines of a valid UTF-8 stream all decode, and put
/// back together they give the stream.
proof fn lemma_stream_round_trip(y: Seq<u8>)
    requires
        valid_utf8(y),
    ensures
        forall|i: int|
            0 <= i < stream_lines(true, y).len() ==> valid_utf8(#[trigger] stream_lines(true, y)[i]),
        concat_lines(stream_lines(true, y)) == y,
    decreases y.len(),
{
    let ls = stream_lines(true, y);
    if y.len() > 0 {
        lemma_first_terminator_bounds(y, 0);
        match first_terminator(y) {
            None => {
                assert(ls.drop_first() =~= Seq::<Seq<u8>>::empty());
                assert(concat_lines(ls.drop_first()) == Seq::<u8>::empty());
                assert(concat_lines(ls) =~= y);
            },
            Some((s, e)) => {
                let t = terminator_at(y, s);
                lemma_terminator_at(y, s);
                lemma_terminator_end_boundary(y, s, t);
                valid_utf8_split(y, e);
                let line = y.subrange(0, e);
                let rest = y.subrange(e, y.len() as int);
                lemma_stream_round_trip(rest);
                let ls2 = stream_lines(true, rest);
                assert(ls == seq![line] + ls2);
                assert(ls.drop_first() =~= ls2);
                assert(concat_lines(ls) =~= y);
                assert forall|i: int| 0 <= i < ls.len() implies valid_utf8(#[trigger] ls[i]) by {
                    if i > 0 {
                        assert(ls[i] == ls2[i - 1]);
                    }
                }
            },
        }
    }
}

/// Round trip: when lines keep their terminators, the lines of a valid UTF-8
/// stream all decode, and put back together they give the stream, however
/// the source hands its bytes over.
pub proof fn lemma_round_trip(input: Seq<u8>, sizes: Seq<nat>)
    requires
        valid_utf8(input),
    ensures
        lines_from(start_state(true), input, sizes) == stream_lines(true, input),
        forall|i: int|
            0 <= i < stream_lines(true, input).len() ==> valid_utf8(
                #[trigger] stream_lines(true, input)[i],
            ),
        concat_lines(stream_lines(true, input)) == input,
{
    assert(start_state(true).pending + input =~= input);
    lemma_lines_follow_stream(start_state(true), input, sizes);
    lemma_stream_round_trip(input);
}

/// Block sizes do not matter: two ways of handing over the same stream give
/// the same lines.
pub proof fn lemma_sizes_do_not_matter(
    keep: bool,
    input: Seq<u8>,
    sizes1: Seq<nat>,
    sizes2: Seq<nat>,
)
    ensures
        lines_from(start_state(keep), input, sizes1) == lines_from(start_state(keep), input, sizes2),
{
    assert(start_state(keep).pending + input =~= input);
    lemma_lines_follow_stream(start_state(keep), input, sizes1);
    lemma_lines_follow_stream(start_state(keep), input, sizes2);
}

/// A line that does not decode ends the stream: every line before the last
/// one is valid UTF-8, so nothing after a bad line is ever produced.
pub proof fn lemma_nothing_after_bad_line(keep: bool, y: Seq<u8>)
    ensures
        forall|i: int|
            0 <= i < stream_lines(keep, y).len() - 1 ==> valid_utf8(
                #[trigger] stream_lines(keep, y)[i],
            ),
    decreases y.len(),
{
    let ls = stream_lines(keep, y);
    if y.len() > 0 {
        lemma_first_terminator_bounds(y, 0);
        match first_terminator(y) {
            None => {},
            Some((s, e)) => {
                let line = y.subrange(0, line_end(keep, s, e));
                if valid_utf8(line) {
                    let rest = y.subrange(e, y.len() as int);
                    lemma_nothing_after_bad_line(keep, rest);
                    let ls2 = stream_lines(keep, rest);
                    assert(ls == seq![line] + ls2);
                    assert forall|i: int| 0 <= i < ls.len() - 1 implies valid_utf8(
                        #[trigger] ls[i],
                    ) by {
                        if i > 0 {
                            assert(ls[i] == ls2[i - 1]);
                        }
                    }
                }
            },
        }
    }
}

/// One line per token: where the stream starts with a token `t` in which no
/// terminator starts, followed by the terminator `n` found there, the first
/// line is the token (with `n` when terminators are kept), and the lines after
/// it are the lines of the rest, `z`.
pub proof fn lemma_token_line(keep: bool, t: Seq<u8>, n: Seq<u8>, z: Seq<u8>)
    requires
        forall|i: int| 0 <= i < t.len() ==> #[trigger] terminator_len_at(t + n + z, i) == 0,
        n.len() > 0,
        terminator_at(t + n + z, t.len() as int) == n,
        valid_utf8(
            if keep {
                t + n
            } else {
                t
            },
        ),
    ensures
        stream_lines(keep, t + n + z) == seq![
            if keep {
                t + n
            } else {
                t
            },
        ] + stream_lines(keep, z),
{
    let y = t + n + z;
    let p = t.len() as int;
    let e = p + n.len();
    lemma_skip(y, 0, p);
    assert(first_terminator(y) == Some((p, e)));
    let line = y.subrange(0, line_end(keep, p, e));
    assert(line =~= if keep {
        t + n
    } else {
        t
    });
    assert(y.subrange(e, y.len() as int) =~= z);
}

} // verus!
