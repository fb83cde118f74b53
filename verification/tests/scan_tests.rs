use grep_lite::config::ContextConfig;
use grep_lite::engine::{run_count, run_print};
use grep_lite::pattern::Pattern;
use grep_lite::scanner::Scanner;

fn pat(s: &str) -> Pattern {
    match Pattern::new(s, false) {
        Ok(p) => p,
        Err(_) => panic!("pattern rejected"),
    }
}

fn lines_of(v: &[&str]) -> Vec<String> {
    let mut out: Vec<String> = Vec::new();
    for s in v {
        out.push(s.to_string());
    }
    out
}

#[test]
fn unflushed_tail_scenario() {
    // before=1, after=1 on [a, b, MATCH, c, d]: a is evicted from the
    // bounded buffer, d falls outside the exhausted countdown.
    let p = pat("MATCH");
    let lines = lines_of(&["a", "b", "MATCH", "c", "d"]);
    let cfg = ContextConfig::resolve(1, 1, 0);
    let out = run_print(&p, false, &lines, &cfg);
    assert_eq!(out.len(), 3);
    assert_eq!(out[0].index, 1);
    assert_eq!(out[0].text, "b");
    assert!(!out[0].matched);
    assert_eq!(out[1].index, 2);
    assert_eq!(out[1].text, "MATCH");
    assert!(out[1].matched);
    assert_eq!(out[2].index, 3);
    assert_eq!(out[2].text, "c");
    assert!(!out[2].matched);
}

#[test]
fn overlap_precedence_scenario() {
    // [MATCH, x, MATCH] with before=1, after=1: x is claimed as
    // after-context of the first match and emitted exactly once.
    let p = pat("MATCH");
    let lines = lines_of(&["MATCH", "x", "MATCH"]);
    let cfg = ContextConfig::resolve(1, 1, 0);
    let out = run_print(&p, false, &lines, &cfg);
    assert_eq!(out.len(), 3);
    assert_eq!(out[0].index, 0);
    assert!(out[0].matched);
    assert_eq!(out[1].index, 1);
    assert!(!out[1].matched);
    assert_eq!(out[2].index, 2);
    assert!(out[2].matched);
}

#[test]
fn no_context_emits_exactly_matches() {
    let p = pat("needle");
    let lines = lines_of(&["hay", "a needle here", "hay", "needles", "hay"]);
    let cfg = ContextConfig::resolve(0, 0, 0);
    let out = run_print(&p, false, &lines, &cfg);
    assert_eq!(out.len(), 2);
    assert_eq!(out[0].index, 1);
    assert_eq!(out[0].text, "a needle here");
    assert!(out[0].matched);
    assert_eq!(out[1].index, 3);
    assert_eq!(out[1].text, "needles");
    assert!(out[1].matched);
}

#[test]
fn count_equals_print_length() {
    let p = pat("m");
    let lines = lines_of(&["m", "x", "y", "m", "m", "z", "q", "m x"]);
    for before in 0..4usize {
        for after in 0..4usize {
            let cfg = ContextConfig::resolve(before, after, 0);
            let printed = run_print(&p, false, &lines, &cfg);
            let counted = run_count(&p, false, &lines, &cfg);
            assert_eq!(counted, printed.len());
            let inv_printed = run_print(&p, true, &lines, &cfg);
            let inv_counted = run_count(&p, true, &lines, &cfg);
            assert_eq!(inv_counted, inv_printed.len());
        }
    }
}

#[test]
fn empty_stream() {
    let p = pat("x");
    let lines: Vec<String> = Vec::new();
    let cfg = ContextConfig::resolve(2, 2, 0);
    assert_eq!(run_print(&p, false, &lines, &cfg).len(), 0);
    assert_eq!(run_count(&p, false, &lines, &cfg), 0);
}

#[test]
fn before_buffer_evicts_oldest() {
    let p = pat("m");
    let lines = lines_of(&["x1", "x2", "x3", "m"]);
    let cfg = ContextConfig::resolve(2, 0, 0);
    let out = run_print(&p, false, &lines, &cfg);
    assert_eq!(out.len(), 3);
    assert_eq!(out[0].index, 1);
    assert_eq!(out[1].index, 2);
    assert_eq!(out[2].index, 3);
}

#[test]
fn after_countdown_runs_out() {
    let p = pat("m");
    let lines = lines_of(&["m", "x", "y", "z"]);
    let cfg = ContextConfig::resolve(0, 2, 0);
    let out = run_print(&p, false, &lines, &cfg);
    assert_eq!(out.len(), 3);
    assert_eq!(out[0].index, 0);
    assert!(out[0].matched);
    assert_eq!(out[1].index, 1);
    assert_eq!(out[2].index, 2);
}

#[test]
fn invert_flips_classification() {
    let p = pat("a");
    let lines = lines_of(&["a", "b", "ca", "d"]);
    let cfg = ContextConfig::resolve(0, 0, 0);
    let out = run_print(&p, true, &lines, &cfg);
    assert_eq!(out.len(), 2);
    assert_eq!(out[0].index, 1);
    assert_eq!(out[0].text, "b");
    assert!(out[0].matched);
    assert_eq!(out[1].index, 3);
    assert_eq!(out[1].text, "d");
    assert!(out[1].matched);
}

#[test]
fn scanner_steps_match_batch_run() {
    let cfg = ContextConfig::resolve(1, 1, 0);
    let mut sc = Scanner::new(&cfg);
    let texts = ["a", "b", "MATCH", "c", "d"];
    let flags = [false, false, true, false, false];
    let mut indices: Vec<usize> = Vec::new();
    for i in 0..texts.len() {
        let emitted = sc.step(texts[i].to_string(), flags[i]);
        for e in emitted {
            indices.push(e.index);
        }
    }
    assert_eq!(sc.lines_seen(), 5);
    assert_eq!(indices, vec![1, 2, 3]);
}

#[test]
fn unified_context_overrides() {
    let c = ContextConfig::resolve(1, 2, 3);
    assert_eq!(c.before, 3);
    assert_eq!(c.after, 3);
    let c2 = ContextConfig::resolve(1, 2, 0);
    assert_eq!(c2.before, 1);
    assert_eq!(c2.after, 2);
}

#[test]
fn adjacent_windows_merge_without_duplicates() {
    let p = pat("m");
    let lines = lines_of(&["x", "m", "x", "m", "x"]);
    let cfg = ContextConfig::resolve(1, 1, 0);
    let out = run_print(&p, false, &lines, &cfg);
    assert_eq!(out.len(), 5);
    for (t, e) in out.iter().enumerate() {
        assert_eq!(e.index, t);
    }
}
