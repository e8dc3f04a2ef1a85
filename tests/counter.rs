use uwc::counter::{count, Count, Counted, Counter, ALL_COUNTERS};
use uwc::newline::{FF, LS, NEL, PS};

#[test]
fn test_count_hello() {
    let s = "hello";
    let counts = count(&ALL_COUNTERS[..], s);

    let mut correct_counts = Counted::new();
    correct_counts.insert(Counter::GraphemeCluster, 5);
    correct_counts.insert(Counter::Line, 0);
    correct_counts.insert(Counter::NumByte, 5);
    correct_counts.insert(Counter::Words, 1);
    correct_counts.insert(Counter::CodePoints, 5);

    assert_eq!(correct_counts, counts);
}

#[test]
fn test_count_counts_lines() {
    // * \r\n is a single graheme cluster
    // * trailing newlines are counted
    // * NEL is 2 bytes
    // * FF is 1 byte
    // * LS is 3 bytes
    // * PS is 3 bytes
    let mut s = String::from("foo\r\nbar\n\nbaz");
    s += NEL;
    s += "quux";
    s += FF;
    s += LS;
    s += "xi";
    s += PS;
    s += "\n";

    let counts = count(&ALL_COUNTERS[..], &s);

    let mut correct_counts = Counted::new();
    correct_counts.insert(Counter::GraphemeCluster, 23);
    correct_counts.insert(Counter::Line, 8);
    correct_counts.insert(Counter::NumByte, 29);
    correct_counts.insert(Counter::Words, 5);

    // one more than grapheme clusters because of \r\n
    correct_counts.insert(Counter::CodePoints, 24);

    assert_eq!(correct_counts, counts);
}

#[test]
fn test_count_counts_words() {
    let i_can_eat_glass =
        "Μπορῶ νὰ φάω σπασμένα γυαλιὰ χωρὶς νὰ πάθω τίποτα.";
    let s = String::from(i_can_eat_glass);

    let counts = count(&ALL_COUNTERS[..], &s);

    let mut correct_counts = Counted::new();
    correct_counts.insert(Counter::GraphemeCluster, 50);
    correct_counts.insert(Counter::Line, 0);
    correct_counts.insert(Counter::NumByte, i_can_eat_glass.len());
    correct_counts.insert(Counter::Words, 9);
    correct_counts.insert(Counter::CodePoints, 50);

    assert_eq!(correct_counts, counts);
}

#[test]
fn test_count_counts_codepoints() {
    // these are NOT the same! One is e + ́́ , and one is é, a single codepoint
    let one = "é";
    let two = "é";

    let counters = [Counter::CodePoints];

    let counts = count(&counters[..], &one);

    let mut correct_counts = Counted::new();
    correct_counts.insert(Counter::CodePoints, 1);

    assert_eq!(correct_counts, counts);

    let counts = count(&counters[..], &two);

    let mut correct_counts = Counted::new();
    correct_counts.insert(Counter::CodePoints, 2);

    assert_eq!(correct_counts, counts);
}

#[test]
fn test_precomposed_and_combining_are_one_cluster() {
    let counters = [Counter::CodePoints, Counter::GraphemeCluster];
    let precomposed = count(&counters[..], "\u{e9}");
    let combining = count(&counters[..], "e\u{301}");
    assert_eq!(precomposed.get(Counter::CodePoints), Some(1));
    assert_eq!(combining.get(Counter::CodePoints), Some(2));
    assert_eq!(precomposed.get(Counter::GraphemeCluster), Some(1));
    assert_eq!(combining.get(Counter::GraphemeCluster), Some(1));
}

#[test]
fn test_empty_text_counts_zero() {
    let counts = count(&ALL_COUNTERS[..], "");
    assert_eq!(counts.values(), vec![0, 0, 0, 0, 0]);
}

#[test]
fn test_no_counters_gives_no_counts() {
    let counts = count(&[], "hello");
    assert_eq!(counts, Counted::new());
    assert!(counts.values().is_empty());
}

#[test]
fn test_crlf_is_one_line() {
    let counters = [Counter::Line];
    assert_eq!(count(&counters[..], "a\r\n").get(Counter::Line), Some(1));
    assert_eq!(count(&counters[..], "a\r").get(Counter::Line), Some(1));
    assert_eq!(count(&counters[..], "\r\n\n").get(Counter::Line), Some(2));
    assert_eq!(count(&counters[..], "a\u{2029}b\u{0085}").get(Counter::Line), Some(2));
}

#[test]
fn test_values_follow_column_order() {
    let counts = count(&ALL_COUNTERS[..], "hello world\n");
    // lines, words, bytes, graphemes, code points
    assert_eq!(counts.values(), vec![1, 2, 12, 12, 12]);
}

#[test]
fn test_absent_counter_has_no_count() {
    let counts = count(&[Counter::Words], "two words");
    assert_eq!(counts.get(Counter::Words), Some(2));
    assert_eq!(counts.get(Counter::Line), None);
    assert_eq!(counts.get(Counter::NumByte), None);
}

#[test]
fn test_counter_names() {
    assert_eq!(Counter::GraphemeCluster.to_string(), "graphemes");
    assert_eq!(Counter::NumByte.to_string(), "bytes");
    assert_eq!(Counter::Line.to_string(), "lines");
    assert_eq!(Counter::Words.to_string(), "words");
    assert_eq!(Counter::CodePoints.to_string(), "codepoints");
}

#[test]
fn test_count_trait_per_kind() {
    let s = "Bonjour, le monde!\r\n";
    assert_eq!(Counter::NumByte.count(s), 20);
    assert_eq!(Counter::CodePoints.count(s), 20);
    assert_eq!(Counter::GraphemeCluster.count(s), 19);
    assert_eq!(Counter::Words.count(s), 3);
    assert_eq!(Counter::Line.count(s), 1);
}

#[test]
fn test_insert_replaces_count() {
    let mut counts = Counted::new();
    counts.insert(Counter::Words, 3);
    counts.insert(Counter::Words, 7);
    assert_eq!(counts.get(Counter::Words), Some(7));
    assert_eq!(counts.values(), vec![7]);
}
