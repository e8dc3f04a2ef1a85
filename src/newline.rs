//! The line terminators recognized by the splitter and the counter, and the
//! matcher that finds the first of them in a block of bytes.
use vstd::prelude::*;

verus! {

/// Carriage return.
pub const CR: &'static str = "\r";

/// Line feed.
pub const LF: &'static str = "\n";

/// Carriage return followed by line feed.
pub const CRLF: &'static str = "\r\n";

/// Next line.
pub const NEL: &'static str = "\u{0085}";

/// Form feed.
pub const FF: &'static str = "\u{000C}";

/// Line separator.
pub const LS: &'static str = "\u{2028}";

/// Paragraph separator.
pub const PS: &'static str = "\u{2029}";

/// The alternation of the seven terminators, CRLF first so that it wins over
/// a bare CR starting at the same byte.
pub const NEWLINE_PATTERN: &'static str = "\r\n|\n|\r|\u{0085}|\u{000C}|\u{2028}|\u{2029}";

pub open spec fn crlf_bytes() -> Seq<u8> {
    seq![0x0du8, 0x0au8]
}

pub open spec fn lf_bytes() -> Seq<u8> {
    seq![0x0au8]
}

pub open spec fn cr_bytes() -> Seq<u8> {
    seq![0x0du8]
}

pub open spec fn nel_bytes() -> Seq<u8> {
    seq![0xc2u8, 0x85u8]
}

pub open spec fn ff_bytes() -> Seq<u8> {
    seq![0x0cu8]
}

pub open spec fn ls_bytes() -> Seq<u8> {
    seq![0xe2u8, 0x80u8, 0xa8u8]
}

pub open spec fn ps_bytes() -> Seq<u8> {
    seq![0xe2u8, 0x80u8, 0xa9u8]
}

/// The text of `NEWLINE_PATTERN`: the seven terminators joined by `|`.
pub open spec fn newline_pattern() -> Seq<char> {
    seq![
        '\r', '\n', '|', '\n', '|', '\r', '|', '\u{0085}', '|', '\u{000C}', '|', '\u{2028}', '|',
        '\u{2029}',
    ]
}

/// Whether `t` occurs in `b` starting at byte `i`.
pub open spec fn occurs_at(b: Seq<u8>, i: int, t: Seq<u8>) -> bool {
    0 <= i && i + t.len() <= b.len() && b.subrange(i, i + t.len()) == t
}

/// The terminator that starts at byte `i` of `b`, or nothing when none does.
/// Where several start there, the first one in pattern order counts.
pub open spec fn terminator_at(b: Seq<u8>, i: int) -> Seq<u8> {
    if occurs_at(b, i, crlf_bytes()) {
        crlf_bytes()
    } else if occurs_at(b, i, lf_bytes()) {
        lf_bytes()
    } else if occurs_at(b, i, cr_bytes()) {
        cr_bytes()
    } else if occurs_at(b, i, nel_bytes()) {
        nel_bytes()
    } else if occurs_at(b, i, ff_bytes()) {
        ff_bytes()
    } else if occurs_at(b, i, ls_bytes()) {
        ls_bytes()
    } else if occurs_at(b, i, ps_bytes()) {
        ps_bytes()
    } else {
        Seq::empty()
    }
}

/// The length of the terminator that starts at byte `i` of `b`, or 0 when none
/// does.
pub open spec fn terminator_len_at(b: Seq<u8>, i: int) -> nat {
    terminator_at(b, i).len()
}

/// The leftmost terminator in `b` at or after byte `i`, as its start and end.
pub open spec fn first_terminator_from(b: Seq<u8>, i: int) -> Option<(int, int)>
    decreases b.len() - i,
{
    if i < 0 || i >= b.len() {
        None
    } else if terminator_len_at(b, i) > 0 {
        Some((i, i + terminator_len_at(b, i)))
    } else {
        first_terminator_from(b, i + 1)
    }
}

/// The leftmost terminator in `b`, as its start and end.
pub open spec fn first_terminator(b: Seq<u8>) -> Option<(int, int)> {
    first_terminator_from(b, 0)
}

/// Whether the bytes `t` are exactly one terminator.
pub open spec fn is_terminator(t: Seq<u8>) -> bool {
    ||| t == crlf_bytes()
    ||| t == lf_bytes()
    ||| t == cr_bytes()
    ||| t == nel_bytes()
    ||| t == ff_bytes()
    ||| t == ls_bytes()
    ||| t == ps_bytes()
}

/// Whether a match from `s` to `e` in the bytes read so far, `x`, is settled:
/// it is, unless it is a carriage return that ends `x`, which the next byte
/// could turn into CRLF.
pub open spec fn settled(x: Seq<u8>, s: int, e: int) -> bool {
    !(e == x.len() && e == s + 1 && x[s] == 0x0du8)
}

/// The leftmost terminator lies inside the bytes searched.
pub proof fn lemma_first_terminator_bounds(b: Seq<u8>, i: int)
    ensures
        first_terminator_from(b, i) matches Some((s, e)) ==> i <= s < e <= b.len()
            && e == s + terminator_len_at(b, s) && (i >= 0 ==> s >= 0),
    decreases b.len() - i,
{
    if 0 <= i < b.len() && terminator_len_at(b, i) == 0 {
        lemma_first_terminator_bounds(b, i + 1);
    }
}

/// The terminator found at a byte is one of the seven, and it is there.
pub proof fn lemma_terminator_at(b: Seq<u8>, i: int)
    ensures
        terminator_at(b, i).len() > 0 ==> is_terminator(terminator_at(b, i)) && occurs_at(
            b,
            i,
            terminator_at(b, i),
        ),
        terminator_at(b, i).len() <= 3,
{
}

/// No terminator starts before the leftmost one.
pub proof fn lemma_leftmost(b: Seq<u8>, j: int)
    requires
        0 <= j,
    ensures
        first_terminator_from(b, j) matches Some((s, e)) ==> forall|i: int|
            j <= i < s ==> #[trigger] terminator_len_at(b, i) == 0,
        first_terminator_from(b, j) is None ==> forall|i: int|
            j <= i < b.len() ==> #[trigger] terminator_len_at(b, i) == 0,
    decreases b.len() - j,
{
    if j < b.len() && terminator_len_at(b, j) == 0 {
        lemma_leftmost(b, j + 1);
    }
}

/// Where no terminator starts before `k`, the search may start at `k`.
pub proof fn lemma_skip(b: Seq<u8>, j: int, k: int)
    requires
        0 <= j <= k <= b.len(),
        forall|i: int| 0 <= i < k ==> #[trigger] terminator_len_at(b, i) == 0,
    ensures
        first_terminator_from(b, j) == first_terminator_from(b, k),
    decreases k - j,
{
    if j < k {
        lemma_skip(b, j + 1, k);
    }
}

/// Terminators in the bytes from `k` on are those of `x`, shifted by `k`.
proof fn lemma_shift_at(x: Seq<u8>, k: int, j: int)
    requires
        0 <= k <= x.len(),
        0 <= j,
    ensures
        terminator_at(x.subrange(k, x.len() as int), j) == terminator_at(x, k + j),
{
    let w = x.subrange(k, x.len() as int);
    if j + 1 <= w.len() {
        assert(w.subrange(j, j + 1) =~= x.subrange(k + j, k + j + 1));
    }
    if j + 2 <= w.len() {
        assert(w.subrange(j, j + 2) =~= x.subrange(k + j, k + j + 2));
    }
    if j + 3 <= w.len() {
        assert(w.subrange(j, j + 3) =~= x.subrange(k + j, k + j + 3));
    }
}

/// The leftmost terminator of the bytes from `k` on, shifted by `k`, is the
/// leftmost terminator of `x` at or after `k`.
pub proof fn lemma_shift_first(x: Seq<u8>, k: int, j: int)
    requires
        0 <= k <= x.len(),
        0 <= j,
    ensures
        first_terminator_from(x.subrange(k, x.len() as int), j) == match first_terminator_from(
            x,
            k + j,
        ) {
            Some((s, e)) => Some((s - k, e - k)),
            None => None,
        },
    decreases x.len() - k - j,
{
    let w = x.subrange(k, x.len() as int);
    lemma_shift_at(x, k, j);
    if j < w.len() && terminator_len_at(w, j) == 0 {
        lemma_shift_first(x, k, j + 1);
    }
}

/// The terminator at byte `i` of the bytes read so far, `x`, is the one at
/// `i` of the whole stream `y`, once enough of the bytes after `i` are known.
pub proof fn lemma_prefix_agree(x: Seq<u8>, y: Seq<u8>, i: int)
    requires
        x.len() <= y.len(),
        x == y.subrange(0, x.len() as int),
        0 <= i < x.len(),
        i + 3 <= x.len() || (i + 2 == x.len() && !(x[i] == 0xe2u8 && x[i + 1] == 0x80u8)) || (i
            + 1 == x.len() && x[i] != 0x0du8 && x[i] != 0xc2u8 && x[i] != 0xe2u8),
    ensures
        terminator_at(x, i) == terminator_at(y, i),
{
    assert(x[i] == y[i]);
    if i + 1 < x.len() {
        assert(x[i + 1] == y[i + 1]);
    }
    if i + 1 <= x.len() {
        assert(x.subrange(i, i + 1) =~= y.subrange(i, i + 1));
    }
    if i + 2 <= x.len() {
        assert(x.subrange(i, i + 2) =~= y.subrange(i, i + 2));
    }
    if i + 3 <= x.len() {
        assert(x.subrange(i, i + 3) =~= y.subrange(i, i + 3));
    }
    if i + 2 <= y.len() {
        assert(y.subrange(i, i + 2)[0] == y[i]);
        assert(y.subrange(i, i + 2)[1] == y[i + 1]);
    }
    if i + 3 <= y.len() {
        assert(y.subrange(i, i + 3)[0] == y[i]);
        assert(y.subrange(i, i + 3)[1] == y[i + 1]);
    }
}

/// The first byte of a terminator found at `s`.
pub proof fn lemma_terminator_first_byte(b: Seq<u8>, s: int)
    requires
        0 <= s,
        terminator_len_at(b, s) > 0,
    ensures
        s < b.len(),
        b[s] == 0x0du8 || b[s] == 0x0au8 || b[s] == 0x0cu8 || b[s] == 0xc2u8 || b[s] == 0xe2u8,
        b[s] == 0xc2u8 ==> terminator_len_at(b, s) == 2,
        b[s] == 0xe2u8 ==> terminator_len_at(b, s) == 3,
        b[s] == 0x0du8 && terminator_len_at(b, s) == 1 ==> !(s + 1 < b.len() && b[s + 1]
            == 0x0au8),
{
    let t = terminator_at(b, s);
    lemma_terminator_at(b, s);
    assert(b.subrange(s, s + t.len())[0] == b[s]);
    if s + 2 <= b.len() {
        assert(b.subrange(s, s + 2)[0] == b[s]);
        assert(b.subrange(s, s + 2)[1] == b[s + 1]);
        if b[s] == 0x0du8 && b[s + 1] == 0x0au8 {
            assert(b.subrange(s, s + 2) =~= crlf_bytes());
        }
    }
}

/// A settled leftmost match in the bytes read so far is the leftmost match of
/// the whole stream: bytes that come later cannot move it.
pub proof fn lemma_settled_is_final(x: Seq<u8>, y: Seq<u8>, j: int, s: int, e: int)
    requires
        x.len() <= y.len(),
        x == y.subrange(0, x.len() as int),
        0 <= j <= s,
        first_terminator_from(x, j) == Some((s, e)),
        settled(x, s, e),
    ensures
        first_terminator_from(y, j) == Some((s, e)),
    decreases s - j,
{
    lemma_first_terminator_bounds(x, j);
    lemma_terminator_first_byte(x, s);
    if j < s {
        assert(terminator_len_at(x, j) == 0);
        if j + 3 > x.len() {
            lemma_terminator_first_byte(x, s);
            assert(j + 1 == s);
        }
        lemma_prefix_agree(x, y, j);
        lemma_settled_is_final(x, y, j + 1, s, e);
    } else {
        if s + 2 == x.len() {
            assert(!(x[s] == 0xe2u8));
        }
        lemma_prefix_agree(x, y, s);
    }
}

#[verifier::external_type_specification]
#[verifier::external_body]
pub struct ExRegex(regex::bytes::Regex);

#[verifier::external_type_specification]
#[verifier::external_body]
pub struct ExRegexError(regex::Error);

/// The compiled alternation of the seven terminators. Its one constructor,
/// `NewlineMatcher::new`, compiles `NEWLINE_PATTERN` and nothing else.
pub struct NewlineMatcher {
    re: regex::bytes::Regex,
}

/// Relies on regex::bytes::Regex::new: compiles `pattern`, or reports why it
/// cannot. Only the terminator pattern is compiled here, so every
/// `NewlineMatcher` holds that regex, which `find_leftmost` relies on.
#[verifier::external_body]
fn compile(pattern: &str) -> (r: Result<regex::bytes::Regex, regex::Error>)
    requires
        pattern@ == newline_pattern(),
{
    regex::bytes::Regex::new(pattern)
}

/// Relies on regex::bytes::Regex::find: the leftmost-first match of the
/// alternation, given by its start and end. At the leftmost byte where some
/// alternative matches, leftmost-first picks the first alternative in pattern
/// order.
#[verifier::external_body]
fn find_leftmost(m: &NewlineMatcher, hay: &[u8]) -> (r: Option<(usize, usize)>)
    ensures
        match r {
            None => first_terminator(hay@) is None,
            Some((s, e)) => first_terminator(hay@) == Some((s as int, e as int)),
        },
{
    m.re.find(hay).map(|found| (found.start(), found.end()))
}

impl NewlineMatcher {
    /// Compiles the matcher for the seven terminators.
    pub fn new() -> (r: Result<NewlineMatcher, regex::Error>) {
        proof {
            reveal_strlit("\r\n|\n|\r|\u{0085}|\u{000C}|\u{2028}|\u{2029}");
        }
        assert(NEWLINE_PATTERN@ =~= newline_pattern());
        match compile(NEWLINE_PATTERN) {
            Ok(re) => Ok(NewlineMatcher { re }),
            Err(e) => Err(e),
        }
    }

    /// The start and end of the leftmost terminator in `hay`.
    pub fn find(&self, hay: &[u8]) -> (r: Option<(usize, usize)>)
        ensures
            match r {
                None => first_terminator(hay@) is None,
                Some((s, e)) => first_terminator(hay@) == Some((s as int, e as int)),
            },
    {
        find_leftmost(self, hay)
    }
}

} // verus!
