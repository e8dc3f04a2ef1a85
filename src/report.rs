//! The rows of the report: counts in column order, separated by tabs and
//! followed by a label, one row per line of output.
use vstd::prelude::*;
use vstd::string::StringExecFns;
use vstd::utf8::encode_utf8;

use crate::counter::{column_values, counter_name, Counted, Counter};
use crate::opt::CountMode;

verus! {

/// The ASCII digit of `d`.
pub open spec fn digit(d: nat) -> u8 {
    (48 + d) as u8
}

/// The decimal digits of `n`, most significant first.
pub open spec fn decimal(n: nat) -> Seq<u8>
    decreases n,
{
    if n < 10 {
        seq![digit(n)]
    } else {
        decimal(n / 10).push(digit(n % 10))
    }
}

/// The numbers `vs` in decimal, separated by tabs.
pub open spec fn tab_joined(vs: Seq<nat>) -> Seq<u8>
    decreases vs.len(),
{
    if vs.len() == 0 {
        Seq::empty()
    } else if vs.len() == 1 {
        decimal(vs[0])
    } else {
        tab_joined(vs.drop_last()) + seq![9u8] + decimal(vs.last())
    }
}

/// The text of an optional label.
pub open spec fn label_text(title: Option<&str>) -> Option<Seq<char>> {
    match title {
        Some(t) => Some(t@),
        None => None,
    }
}

/// One row: the counts, then a tab and the label where there is one, then a
/// line feed.
pub open spec fn row_text(vs: Seq<nat>, title: Option<Seq<char>>) -> Seq<u8> {
    tab_joined(vs) + match title {
        Some(t) => seq![9u8] + encode_utf8(t),
        None => Seq::empty(),
    } + seq![10u8]
}

/// The names of the counters `cs`, each followed by a tab.
pub open spec fn names_text(cs: Seq<Counter>) -> Seq<u8>
    decreases cs.len(),
{
    if cs.len() == 0 {
        Seq::empty()
    } else {
        names_text(cs.drop_last()) + encode_utf8(counter_name(cs.last())) + seq![9u8]
    }
}

/// The header row: the names of the counters, then the file name column.
pub open spec fn header_text(cs: Seq<Counter>) -> Seq<u8> {
    names_text(cs) + encode_utf8("filename\n"@)
}

/// Appends the decimal digits of `n`.
fn push_decimal(out: &mut Vec<u8>, n: usize)
    ensures
        final(out)@ == old(out)@ + decimal(n as nat),
    decreases n,
{
    if n < 10 {
        out.push((48 + n) as u8);
        assert(out@ =~= old(out)@ + decimal(n as nat));
    } else {
        push_decimal(out, n / 10);
        out.push((48 + n % 10) as u8);
        assert(out@ =~= old(out)@ + decimal(n as nat));
    }
}

/// Appends the bytes of `b`.
fn push_all(out: &mut Vec<u8>, b: &[u8])
    ensures
        final(out)@ == old(out)@ + b@,
{
    out.extend_from_slice(b);
    assert(out@ =~= old(out)@ + b@);
}

/// The row for `counts`, labelled with `title` where there is one.
pub fn format_row(counts: &Counted, title: Option<&str>) -> (r: Vec<u8>)
    ensures
        r@ == row_text(column_values(counts@), label_text(title)),
{
    let values = counts.values();
    let ghost vs = column_values(counts@);
    let mut out: Vec<u8> = Vec::new();
    let mut i: usize = 0;
    while i < values.len()
        invariant
            i <= values@.len(),
            values@.len() == vs.len(),
            forall|j: int| 0 <= j < values@.len() ==> values@[j] as nat == #[trigger] vs[j],
            out@ == tab_joined(vs.subrange(0, i as int)),
        decreases values@.len() - i,
    {
        assert(vs.subrange(0, i + 1).drop_last() =~= vs.subrange(0, i as int));
        assert(vs.subrange(0, i + 1).last() == vs[i as int]);
        if i > 0 {
            out.push(9u8);
        }
        push_decimal(&mut out, values[i]);
        assert(out@ =~= tab_joined(vs.subrange(0, i + 1)));
        i = i + 1;
    }
    assert(vs.subrange(0, i as int) =~= vs);
    if let Some(name) = title {
        out.push(9u8);
        push_all(&mut out, name.as_bytes());
    }
    out.push(10u8);
    assert(out@ =~= row_text(vs, label_text(title)));
    out
}

/// The header row for the counters `counters`.
pub fn format_header(counters: &[Counter]) -> (r: Vec<u8>)
    ensures
        r@ == header_text(counters@),
{
    let mut out: Vec<u8> = Vec::new();
    let mut i: usize = 0;
    while i < counters.len()
        invariant
            i <= counters@.len(),
            out@ == names_text(counters@.subrange(0, i as int)),
        decreases counters@.len() - i,
    {
        assert(counters@.subrange(0, i + 1).drop_last() =~= counters@.subrange(0, i as int));
        let name = counters[i].to_string();
        push_all(&mut out, name.as_str().as_bytes());
        out.push(9u8);
        assert(out@ =~= names_text(counters@.subrange(0, i + 1)));
        i = i + 1;
    }
    assert(counters@.subrange(0, i as int) =~= counters@);
    push_all(&mut out, "filename\n".as_bytes());
    out
}

/// Whether a run ends with a grand-total row: only when counting per file,
/// and only over more than one file.
pub fn writes_grand_total(mode: CountMode, n_files: usize) -> (r: bool)
    ensures
        r == (mode == CountMode::File && n_files > 1),
{
    match mode {
        CountMode::File => n_files > 1,
        CountMode::Line => false,
    }
}

/// The label of a file's total row: the file name when counting per file,
/// the file name followed by ":total" when counting per line.
pub fn total_label(mode: CountMode, file_name: &str) -> (r: String)
    ensures
        r@ == match mode {
            CountMode::File => file_name@,
            CountMode::Line => file_name@ + ":total"@,
        },
{
    let mut label = file_name.to_owned();
    if mode == CountMode::Line {
        label.append(":total");
    }
    label
}

} // verus!
