use grep_lite::format::{count_summary, dec_string, highlight_segments, line_prefix};
use grep_lite::Span;

#[test]
fn decimal_rendering() {
    assert_eq!(dec_string(0), "0");
    assert_eq!(dec_string(7), "7");
    assert_eq!(dec_string(10), "10");
    assert_eq!(dec_string(12345), "12345");
    assert_eq!(dec_string(4294967295), "4294967295");
}

#[test]
fn single_source_prefix_has_no_name() {
    assert_eq!(line_prefix("-", false, 0), "1: ");
    assert_eq!(line_prefix("notes.txt", false, 41), "42: ");
}

#[test]
fn multi_source_prefix_names_the_stream() {
    assert_eq!(line_prefix("notes.txt", true, 41), "notes.txt:42: ");
    assert_eq!(line_prefix("-", true, 0), "-:1: ");
}

#[test]
fn count_summary_labeling() {
    assert_eq!(count_summary("notes.txt", false, 5), "5");
    assert_eq!(count_summary("notes.txt", true, 5), "notes.txt: 5");
    assert_eq!(count_summary("-", true, 0), "-: 0");
}

#[test]
fn synthetic_span_in_the_middle() {
    let spans = vec![Span { start: 6, end: 11 }];
    let segs = highlight_segments("hello world", &spans);
    let texts: Vec<&str> = segs.iter().map(|s| s.text.as_str()).collect();
    let marks: Vec<bool> = segs.iter().map(|s| s.marked).collect();
    assert_eq!(texts, vec!["hello ", "world", ""]);
    assert_eq!(marks, vec![false, true, false]);
}

#[test]
fn no_spans_yields_one_verbatim_run() {
    let spans: Vec<Span> = Vec::new();
    let segs = highlight_segments("plain", &spans);
    assert_eq!(segs.len(), 1);
    assert_eq!(segs[0].text, "plain");
    assert!(!segs[0].marked);
}

#[test]
fn adjacent_spans_split_cleanly() {
    let spans = vec![Span { start: 0, end: 1 }, Span { start: 1, end: 2 }];
    let segs = highlight_segments("ab", &spans);
    let texts: Vec<&str> = segs.iter().map(|s| s.text.as_str()).collect();
    let marks: Vec<bool> = segs.iter().map(|s| s.marked).collect();
    assert_eq!(texts, vec!["", "a", "", "b", ""]);
    assert_eq!(marks, vec![false, true, false, true, false]);
}
