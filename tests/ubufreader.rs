use std::io::{self, BufRead, BufReader};

use uwc::error::UwcError;
use uwc::newline::NewlineMatcher;
use uwc::ubufreader::{Step, UStrChunksIter};

/// Drives the splitter over a buffered source until it has the next line.
fn next_line<R: BufRead>(
    chunks: &mut UStrChunksIter,
    reader: &mut R,
) -> Option<Result<String, UwcError>> {
    if chunks.is_finished() {
        return None;
    }
    loop {
        let step = match reader.fill_buf() {
            Ok(block) => chunks.advance(block),
            Err(e) => return chunks.fail(e),
        };
        match step {
            Step::Pull(n) => reader.consume(n),
            Step::Emit(n, item) => {
                reader.consume(n);
                return item;
            }
        }
    }
}

#[test]
fn test_basic() {
    let mut cursor = io::Cursor::new(b"hello");
    let matcher = NewlineMatcher::new().unwrap();
    let mut chunks = UStrChunksIter::new(&matcher, true);
    let source = &mut cursor;
    let mut s = next_line(&mut chunks, source);
    assert_eq!("hello", s.unwrap().unwrap());

    s = next_line(&mut chunks, source);
    assert!(s.is_none());
    assert!(s.is_none());
}

#[test]
fn test_chunks_by_newline() {
    let mut cursor = io::Cursor::new(
        "hello\ngoodbye\r\nwindows?\u{0085}\u{000C}unicode\u{2028}newline\u{2029}sequences"
        .as_bytes());

    let matcher = NewlineMatcher::new().unwrap();
    let mut chunks = UStrChunksIter::new(&matcher, true);
    let source = &mut cursor;
    assert_eq!("hello\n", next_line(&mut chunks, source).unwrap().unwrap());
    assert_eq!("goodbye\r\n", next_line(&mut chunks, source).unwrap().unwrap());
    assert_eq!("windows?\u{0085}", next_line(&mut chunks, source).unwrap().unwrap());
    assert_eq!("\u{000C}", next_line(&mut chunks, source).unwrap().unwrap());
    assert_eq!("unicode\u{2028}", next_line(&mut chunks, source).unwrap().unwrap());
    assert_eq!("newline\u{2029}", next_line(&mut chunks, source).unwrap().unwrap());
    assert_eq!("sequences", next_line(&mut chunks, source).unwrap().unwrap());

    assert!(next_line(&mut chunks, source).is_none());
    assert!(next_line(&mut chunks, source).is_none());
}

#[test]
fn test_chunks_by_newline_no_newlines() {
    let mut cursor = io::Cursor::new(
        "hello\ngoodbye\r\nwindows?\u{0085}\u{000C}unicode\u{2028}newline\u{2029}sequences"
        .as_bytes());

    let matcher = NewlineMatcher::new().unwrap();
    let mut chunks = UStrChunksIter::new(&matcher, false);
    let source = &mut cursor;
    assert_eq!("hello", next_line(&mut chunks, source).unwrap().unwrap());
    assert_eq!("goodbye", next_line(&mut chunks, source).unwrap().unwrap());
    assert_eq!("windows?", next_line(&mut chunks, source).unwrap().unwrap());
    assert_eq!("", next_line(&mut chunks, source).unwrap().unwrap());
    assert_eq!("unicode", next_line(&mut chunks, source).unwrap().unwrap());
    assert_eq!("newline", next_line(&mut chunks, source).unwrap().unwrap());
    assert_eq!("sequences", next_line(&mut chunks, source).unwrap().unwrap());

    assert!(next_line(&mut chunks, source).is_none());
    assert!(next_line(&mut chunks, source).is_none());
}

#[test]
fn test_basic_buffered() {
    let cursor = io::Cursor::new(b"hello");
    let mut reader = BufReader::with_capacity(3, cursor);
    let matcher = NewlineMatcher::new().unwrap();
    let mut chunks = UStrChunksIter::new(&matcher, true);
    let source = &mut reader;
    assert_eq!("hello", next_line(&mut chunks, source).unwrap().unwrap());
    assert!(next_line(&mut chunks, source).is_none());
    assert!(next_line(&mut chunks, source).is_none());
}

#[test]
fn test_buffered_stops_in_middle() {
    // üò¨ is 4 bytes
    let cursor = io::Cursor::new("hello üò¨ whoops".as_bytes());

    // this should stop reading 2 bytes into the emoji
    let mut reader = BufReader::with_capacity(8, cursor);
    let matcher = NewlineMatcher::new().unwrap();
    let mut chunks = UStrChunksIter::new(&matcher, true);
    let source = &mut reader;

    assert_eq!("hello üò¨ whoops", next_line(&mut chunks, source).unwrap().unwrap());
    assert!(next_line(&mut chunks, source).is_none());
    assert!(next_line(&mut chunks, source).is_none());
}

#[test]
fn test_buffered_stops_in_middle_japanese() {
    let cursor =
        io::Cursor::new("ÁßÅ„ÅØ„Ç¨„É©„Çπ„ÇíÈ£ü„Åπ„Çâ„Çå„Åæ„Åô„ÄÇ\n„Åù„Çå„ÅØÁßÅ„ÇíÂÇ∑„Å§„Åë„Åæ„Åõ„Çì„ÄÇ".as_bytes());

    // with a capacity of 10, it should stop in the middle of some graphemes
    let mut reader = BufReader::with_capacity(10, cursor);
    let matcher = NewlineMatcher::new().unwrap();
    let mut chunks = UStrChunksIter::new(&matcher, true);
    let source = &mut reader;

    assert_eq!(
        "ÁßÅ„ÅØ„Ç¨„É©„Çπ„ÇíÈ£ü„Åπ„Çâ„Çå„Åæ„Åô„ÄÇ\n",
        next_line(&mut chunks, source).unwrap().unwrap()
    );
    assert_eq!("„Åù„Çå„ÅØÁßÅ„ÇíÂÇ∑„Å§„Åë„Åæ„Åõ„Çì„ÄÇ", next_line(&mut chunks, source).unwrap().unwrap());

    assert!(next_line(&mut chunks, source).is_none());
    assert!(next_line(&mut chunks, source).is_none());
}

/// A source that hands over its bytes and then fails.
struct FailingSource {
    data: io::Cursor<Vec<u8>>,
}

impl io::Read for FailingSource {
    fn read(&mut self, buf: &mut [u8]) -> io::Result<usize> {
        let n = self.data.read(buf)?;
        if n == 0 {
            Err(io::Error::new(io::ErrorKind::Other, "device gone"))
        } else {
            Ok(n)
        }
    }
}

/// All the lines of `input`, read through a buffer of `capacity` bytes.
fn all_lines(input: &[u8], capacity: usize, keep: bool) -> Vec<Result<String, UwcError>> {
    let matcher = NewlineMatcher::new().unwrap();
    let mut chunks = UStrChunksIter::new(&matcher, keep);
    let mut reader = BufReader::with_capacity(capacity, input);
    let mut lines = Vec::new();
    while let Some(line) = next_line(&mut chunks, &mut reader) {
        lines.push(line);
    }
    lines
}

#[test]
fn test_crlf_stays_whole() {
    let lines = all_lines(b"a\r\nb", 64, true);
    let texts: Vec<String> = lines.into_iter().map(|l| l.unwrap()).collect();
    assert_eq!(texts, vec!["a\r\n".to_string(), "b".to_string()]);
}

#[test]
fn test_crlf_stripped_whole() {
    let lines = all_lines(b"a\r\nb\rc\n", 64, false);
    let texts: Vec<String> = lines.into_iter().map(|l| l.unwrap()).collect();
    assert_eq!(texts, vec!["a".to_string(), "b".to_string(), "c".to_string()]);
}

#[test]
fn test_every_terminator_both_ways() {
    let input = "one\rtwo\nthree\r\nfour\u{0085}five\u{000C}six\u{2028}seven\u{2029}eight";
    let kept: Vec<String> = all_lines(input.as_bytes(), 64, true)
        .into_iter()
        .map(|l| l.unwrap())
        .collect();
    assert_eq!(
        kept,
        vec![
            "one\r", "two\n", "three\r\n", "four\u{0085}", "five\u{000C}", "six\u{2028}",
            "seven\u{2029}", "eight",
        ]
    );
    let stripped: Vec<String> = all_lines(input.as_bytes(), 64, false)
        .into_iter()
        .map(|l| l.unwrap())
        .collect();
    assert_eq!(
        stripped,
        vec!["one", "two", "three", "four", "five", "six", "seven", "eight"]
    );
}

#[test]
fn test_round_trip_small_buffers() {
    let input = "Μπορῶ νὰ φάω\r\nσπασμένα γυαλιὰ\u{2028}χωρὶς νὰ πάθω\nτίποτα.\n";
    for capacity in 1..12 {
        let joined: String = all_lines(input.as_bytes(), capacity, true)
            .into_iter()
            .map(|l| l.unwrap())
            .collect();
        assert_eq!(joined, input);
    }
}

#[test]
fn test_empty_source_has_no_lines() {
    assert!(all_lines(b"", 8, true).is_empty());
}

#[test]
fn test_trailing_terminator_gives_no_empty_line() {
    let lines = all_lines(b"x\n", 8, true);
    assert_eq!(lines.len(), 1);
    assert_eq!(lines[0].as_ref().unwrap(), "x\n");
}

#[test]
fn test_bad_bytes_end_the_lines() {
    let mut input = b"first\nsecond\n".to_vec();
    input.extend_from_slice(&[0x66, 0xff, 0x66, b'\n']);
    input.extend_from_slice(b"after\n");
    let lines = all_lines(&input, 4, true);
    assert_eq!(lines.len(), 3);
    assert_eq!(lines[0].as_ref().unwrap(), "first\n");
    assert_eq!(lines[1].as_ref().unwrap(), "second\n");
    match &lines[2] {
        Err(UwcError::Utf8Error { bytes, valid_up_to }) => {
            assert_eq!(*valid_up_to, 1);
            assert_eq!(&bytes[..], &[0x66, 0xff, 0x66, b'\n'][..]);
        }
        other => panic!("expected a decoding error, got {:?}", other),
    }
}

#[test]
fn test_source_failure_ends_the_lines() {
    let source = FailingSource { data: io::Cursor::new(b"ok\npartial".to_vec()) };
    let mut reader = BufReader::with_capacity(4, source);
    let matcher = NewlineMatcher::new().unwrap();
    let mut chunks = UStrChunksIter::new(&matcher, true);
    assert_eq!(next_line(&mut chunks, &mut reader).unwrap().unwrap(), "ok\n");
    match next_line(&mut chunks, &mut reader) {
        Some(Err(UwcError::IoError(e))) => assert_eq!(e.kind(), io::ErrorKind::Other),
        other => panic!("expected a source error, got {:?}", other),
    }
    assert!(chunks.is_finished());
    assert!(next_line(&mut chunks, &mut reader).is_none());
}

#[test]
fn test_advance_by_hand() {
    let matcher = NewlineMatcher::new().unwrap();
    let mut chunks = UStrChunksIter::new(&matcher, false);
    match chunks.advance(b"ab") {
        Step::Pull(n) => assert_eq!(n, 2),
        _ => panic!("expected a pull"),
    }
    match chunks.advance(b"c\r\nd") {
        Step::Emit(n, Some(Ok(line))) => {
            assert_eq!(n, 3);
            assert_eq!(line, "abc");
        }
        _ => panic!("expected a line"),
    }
    match chunks.advance(b"") {
        Step::Emit(0, None) => {}
        _ => panic!("expected the end"),
    }
    assert!(chunks.is_finished());
}

#[test]
fn test_matcher_finds_leftmost_first() {
    let matcher = NewlineMatcher::new().unwrap();
    assert_eq!(matcher.find(b"ab\r\ncd\n"), Some((2, 4)));
    assert_eq!(matcher.find(b"ab\rcd"), Some((2, 3)));
    assert_eq!(matcher.find("x\u{2029}".as_bytes()), Some((1, 4)));
    assert_eq!(matcher.find(b"none here"), None);
}

/// The lines of `input`, as text, read through a buffer of `capacity` bytes.
fn texts(input: &[u8], capacity: usize, keep: bool) -> Vec<String> {
    all_lines(input, capacity, keep).into_iter().map(|l| l.unwrap()).collect()
}

#[test]
fn test_crlf_across_blocks_stays_whole() {
    // "a\r" fills the first block, "\nb" comes in the next one
    assert_eq!(texts(b"a\r\nb", 2, true), vec!["a\r\n", "b"]);
    assert_eq!(texts(b"a\r\nb", 2, false), vec!["a", "b"]);
}

#[test]
fn test_block_sizes_do_not_change_lines() {
    let input = "one\r\ntwo\u{0085}three\u{2028}four\rfive\u{2029}\r\n\u{000C}six\r";
    for keep in [true, false] {
        let whole = texts(input.as_bytes(), 4096, keep);
        for capacity in 1..9 {
            assert_eq!(texts(input.as_bytes(), capacity, keep), whole);
        }
    }
    assert_eq!(
        texts(input.as_bytes(), 1, false),
        vec!["one", "two", "three", "four", "five", "", "", "six"]
    );
}

#[test]
fn test_carriage_return_at_end_of_stream() {
    assert_eq!(texts(b"a\r", 1, false), vec!["a"]);
    assert_eq!(texts(b"a\r", 1, true), vec!["a\r"]);
    assert_eq!(texts(b"a\rb", 2, true), vec!["a\r", "b"]);
}

#[test]
fn test_pending_carriage_return_then_other_byte() {
    let matcher = NewlineMatcher::new().unwrap();
    let mut chunks = UStrChunksIter::new(&matcher, true);
    match chunks.advance(b"a\r") {
        Step::Pull(n) => assert_eq!(n, 2),
        _ => panic!("a carriage return at the end of a block must wait"),
    }
    match chunks.advance(b"b") {
        Step::Emit(n, Some(Ok(line))) => {
            assert_eq!(n, 0);
            assert_eq!(line, "a\r");
        }
        _ => panic!("expected a line"),
    }
}
