use grep_lite::config::ContextConfig;
use grep_lite::engine::{line_flag, render_segments, run_print};
use grep_lite::pattern::Pattern;

fn pat(s: &str, ci: bool) -> Pattern {
    match Pattern::new(s, ci) {
        Ok(p) => p,
        Err(_) => panic!("pattern rejected"),
    }
}

#[test]
fn malformed_pattern_is_rejected() {
    match Pattern::new("[", false) {
        Ok(_) => panic!("expected a rejected pattern"),
        Err(e) => assert!(!e.message.is_empty()),
    }
}

#[test]
fn case_insensitive_matching() {
    let p = pat("HELLO", true);
    assert!(line_flag(&p, false, "say hello there"));
    let q = pat("HELLO", false);
    assert!(!line_flag(&q, false, "say hello there"));
}

#[test]
fn regex_features_reach_the_engine() {
    let p = pat(r"^\d+$", false);
    assert!(line_flag(&p, false, "12345"));
    assert!(!line_flag(&p, false, "12a45"));
}

#[test]
fn highlight_marks_every_match() {
    let p = pat("b+", false);
    let segs = render_segments(&p, false, "abbbcb");
    let texts: Vec<&str> = segs.iter().map(|s| s.text.as_str()).collect();
    let marks: Vec<bool> = segs.iter().map(|s| s.marked).collect();
    assert_eq!(texts, vec!["a", "bbb", "c", "b", ""]);
    assert_eq!(marks, vec![false, true, false, true, false]);
}

#[test]
fn invert_suppresses_highlighting() {
    let p = pat("b", false);
    let segs = render_segments(&p, true, "abc");
    assert_eq!(segs.len(), 1);
    assert_eq!(segs[0].text, "abc");
    assert!(!segs[0].marked);
}

#[test]
fn highlight_on_multibyte_text() {
    let p = pat("\u{e9}", false);
    let segs = render_segments(&p, false, "caf\u{e9}");
    let texts: Vec<&str> = segs.iter().map(|s| s.text.as_str()).collect();
    let marks: Vec<bool> = segs.iter().map(|s| s.marked).collect();
    assert_eq!(texts, vec!["caf", "\u{e9}", ""]);
    assert_eq!(marks, vec![false, true, false]);
}

#[test]
fn empty_matches_preserve_the_line() {
    let p = pat("x*", false);
    let segs = render_segments(&p, false, "ab");
    let mut joined = String::new();
    let mut empty_marked = 0;
    for s in &segs {
        joined.push_str(&s.text);
        if s.marked && s.text.is_empty() {
            empty_marked += 1;
        }
    }
    assert_eq!(joined, "ab");
    assert_eq!(empty_marked, 3);
}

#[test]
fn no_match_lines_are_dropped_silently() {
    let p = pat("zzz", false);
    let lines = vec!["a".to_string(), "b".to_string()];
    let cfg = ContextConfig::resolve(2, 2, 0);
    assert_eq!(run_print(&p, false, &lines, &cfg).len(), 0);
}
