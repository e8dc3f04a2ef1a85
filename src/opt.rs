//! The options of a run, and what follows from them: which counters to run
//! and whether lines keep their terminators.
use vstd::prelude::*;
use vstd::string::StringExecFns;
use vstd::utf8::{decode_utf8, encode_utf8, encode_utf8_decode_utf8};

use crate::counter::Counter;

verus! {

/// The options of a run.
pub struct Opt {
    /// Counts the grapheme clusters.
    pub grapheme_clusters: bool,
    /// Counts the number of bytes.
    pub bytes: bool,
    /// Counts the number of lines.
    pub lines: bool,
    /// Counts the number of words.
    pub words: bool,
    /// Counts the number of Unicode code points.
    pub codepoints: bool,
    /// Counts everything. (The default counters are: lines, words, bytes)
    pub all: bool,
    /// Don't print the field names on the first line.
    pub no_header: bool,
    /// Separate fields with hard tabs instead of aligning them.
    pub no_elastic: bool,
    /// The counting mode.
    pub mode: CountMode,
    /// When in line mode, count newline characters.
    pub count_newlines: bool,
    /// How many lines of a file to read before counting them in parallel.
    pub chunk_size: usize,
    /// The input files; "-" stands for standard input.
    pub files: Vec<String>,
}

/// Whether counts are reported per file or per line.
#[derive(Debug, Copy, Clone, PartialEq, Eq, Structural)]
pub enum CountMode {
    /// Performs counts for every file.
    File,
    /// Performs counts for every line.
    Line,
}

/// `c` alone where `b` holds, else nothing.
pub open spec fn keep_if(b: bool, c: Counter) -> Seq<Counter> {
    if b {
        seq![c]
    } else {
        seq![]
    }
}

/// The counters whose flags are set, in the order of `Counter`.
pub open spec fn in_column_order(
    lines: bool,
    words: bool,
    bytes: bool,
    graphemes: bool,
    codepoints: bool,
) -> Seq<Counter> {
    keep_if(lines, Counter::Line) + keep_if(words, Counter::Words) + keep_if(bytes, Counter::NumByte)
        + keep_if(graphemes, Counter::GraphemeCluster) + keep_if(codepoints, Counter::CodePoints)
}

impl Opt {
    /// The counters that the options ask for: all of them with `all`, else
    /// those selected, else lines, words and bytes.
    pub open spec fn requested(&self) -> Seq<Counter> {
        if self.all {
            in_column_order(true, true, true, true, true)
        } else if !(self.grapheme_clusters || self.bytes || self.lines || self.words
            || self.codepoints) {
            in_column_order(true, true, true, false, false)
        } else {
            in_column_order(self.lines, self.words, self.bytes, self.grapheme_clusters, self.codepoints)
        }
    }

    /// Gets the [`Counter`]s from the options, each once, in the order of
    /// `Counter`.
    pub fn get_counters(&self) -> (r: Vec<Counter>)
        ensures
            r@ == self.requested(),
    {
        let mut counters: Vec<Counter> = Vec::new();
        if self.all {
            counters.push(Counter::Line);
            counters.push(Counter::Words);
            counters.push(Counter::NumByte);
            counters.push(Counter::GraphemeCluster);
            counters.push(Counter::CodePoints);
            assert(counters@ =~= self.requested());
            return counters;
        }
        if !(self.grapheme_clusters || self.bytes || self.lines || self.words || self.codepoints) {
            counters.push(Counter::Line);
            counters.push(Counter::Words);
            counters.push(Counter::NumByte);
            assert(counters@ =~= self.requested());
            return counters;
        }
        if self.lines {
            counters.push(Counter::Line);
        }
        if self.words {
            counters.push(Counter::Words);
        }
        if self.bytes {
            counters.push(Counter::NumByte);
        }
        if self.grapheme_clusters {
            counters.push(Counter::GraphemeCluster);
        }
        if self.codepoints {
            counters.push(Counter::CodePoints);
        }
        assert(counters@ =~= self.requested());
        counters
    }

    /// Determines if the splitter should keep the terminators of lines.
    pub fn should_keep_newlines(&self) -> (r: bool)
        ensures
            r == match self.mode {
                CountMode::File => true,
                CountMode::Line => self.count_newlines,
            },
    {
        match self.mode {
            CountMode::File => true,
            CountMode::Line => self.count_newlines,
        }
    }
}

/// Whether two texts are the same.
fn same_text(a: &str, b: &str) -> (r: bool)
    ensures
        r == (a@ == b@),
{
    broadcast use encode_utf8_decode_utf8;

    let x = a.as_bytes();
    let y = b.as_bytes();
    proof {
        assert(x@ == encode_utf8(a@));
        assert(y@ == encode_utf8(b@));
        assert(decode_utf8(encode_utf8(a@)) == a@);
        assert(decode_utf8(encode_utf8(b@)) == b@);
    }
    if x.len() != y.len() {
        return false;
    }
    let mut i: usize = 0;
    while i < x.len()
        invariant
            i <= x@.len(),
            x@.len() == y@.len(),
            x@ == encode_utf8(a@),
            y@ == encode_utf8(b@),
            forall|j: int| 0 <= j < i ==> x@[j] == y@[j],
        decreases x@.len() - i,
    {
        if x[i] != y[i] {
            return false;
        }
        i = i + 1;
    }
    assert(x@ =~= y@);
    true
}

/// The mode that a word names: "file" or "f", "line" or "l".
pub open spec fn mode_named(s: Seq<char>) -> Option<CountMode> {
    if s == "file"@ || s == "f"@ {
        Some(CountMode::File)
    } else if s == "line"@ || s == "l"@ {
        Some(CountMode::Line)
    } else {
        None
    }
}

impl CountMode {
    /// Reads a mode from its name; any other word is refused with a message
    /// that quotes it.
    pub fn parse(s: &str) -> (r: Result<CountMode, String>)
        ensures
            mode_named(s@) matches Some(m) ==> r == Ok::<CountMode, String>(m),
            mode_named(s@) is None ==> (r matches Err(msg) && msg@ == "Unknown count mode: "@ + s@),
    {
        if same_text(s, "file") || same_text(s, "f") {
            Ok(CountMode::File)
        } else if same_text(s, "line") || same_text(s, "l") {
            Ok(CountMode::Line)
        } else {
            let mut msg = "Unknown count mode: ".to_owned();
            msg.append(s);
            Err(msg)
        }
    }
}

impl std::str::FromStr for CountMode {
    type Err = String;

    fn from_str(s: &str) -> Result<CountMode, String> {
        CountMode::parse(s)
    }
}

} // verus!
