use vstd::prelude::*;
use vstd::string::StringExecFns;
use vstd::string::StringSliceAdditionalSpecFns;
use crate::config::ContextConfig;
use crate::format::Segment;
use crate::format::segments_ok;
use crate::format::spans_wf;
use crate::format::highlight_segments;
use crate::pattern::Pattern;
use crate::pattern::regex_is_match;
use crate::pattern::regex_spans;
use crate::scanner::Emitted;
use crate::scanner::scan_ok;
use crate::scanner::scan_lines;
use crate::scanner::count_lines;
use crate::scanner::window_count;

verus! {

/// The classification the scan applies to a line: the pattern predicate
/// XORed with the invert flag.
pub open spec fn line_flag_spec(
    pat: Seq<char>,
    case_insensitive: bool,
    invert: bool,
    line: Seq<char>,
) -> bool {
    regex_is_match(pat, case_insensitive, line) != invert
}

/// The classification of every line of a stream.
pub open spec fn stream_flags(
    pat: Seq<char>,
    case_insensitive: bool,
    invert: bool,
    lines: Seq<Seq<char>>,
) -> Seq<bool> {
    Seq::new(lines.len(), |i: int| line_flag_spec(pat, case_insensitive, invert, lines[i]))
}

/// Classify one line: the pattern predicate XORed with the invert flag.
pub fn line_flag(pattern: &Pattern, invert: bool, line: &str) -> (b: bool)
    ensures
        b == line_flag_spec(pattern@.pat, pattern@.case_insensitive, invert, line@),
{
    let m = pattern.is_match(line);
    m != invert
}

/// Classify every line of a stream.
pub fn match_flags(pattern: &Pattern, invert: bool, lines: &Vec<String>) -> (flags: Vec<bool>)
    ensures
        flags@.len() == lines@.len(),
        flags@ == stream_flags(
            pattern@.pat,
            pattern@.case_insensitive,
            invert,
            lines.deep_view(),
        ),
{
    let ghost ldv = lines.deep_view();
    let mut flags: Vec<bool> = Vec::new();
    let n = lines.len();
    let mut i: usize = 0;
    while i < n
        invariant
            n == lines@.len(),
            i <= n,
            ldv == lines.deep_view(),
            flags@.len() == i,
            forall|q: int|
                0 <= q < i ==> flags@[q] == line_flag_spec(
                    pattern@.pat,
                    pattern@.case_insensitive,
                    invert,
                    ldv[q],
                ),
        decreases n - i,
    {
        proof {
            assert(ldv[i as int] == lines@[i as int]@);
        }
        let b = line_flag(pattern, invert, lines[i].as_str());
        flags.push(b);
        i = i + 1;
    }
    proof {
        assert(flags@ =~= stream_flags(pattern@.pat, pattern@.case_insensitive, invert, ldv));
    }
    flags
}

/// Scan one stream in print mode: the records are exactly the lines that lie
/// in the context window of some line whose (possibly inverted) predicate
/// result is true, in stream order, each at most once.
pub fn run_print(
    pattern: &Pattern,
    invert: bool,
    lines: &Vec<String>,
    config: &ContextConfig,
) -> (out: Vec<Emitted>)
    ensures
        scan_ok(
            lines.deep_view(),
            stream_flags(pattern@.pat, pattern@.case_insensitive, invert, lines.deep_view()),
            config.before as int,
            config.after as int,
            out@,
        ),
{
    let flags = match_flags(pattern, invert, lines);
    scan_lines(lines, &flags, config)
}

/// Scan one stream in count mode: the number of records print mode would
/// emit for the same stream and configuration.
pub fn run_count(
    pattern: &Pattern,
    invert: bool,
    lines: &Vec<String>,
    config: &ContextConfig,
) -> (count: usize)
    ensures
        count == window_count(
            stream_flags(pattern@.pat, pattern@.case_insensitive, invert, lines.deep_view()),
            config.before as int,
            config.after as int,
            lines.deep_view().len() as int,
        ),
{
    let flags = match_flags(pattern, invert, lines);
    count_lines(lines, &flags, config)
}

/// Decompose an emitted line for printing. In invert mode highlighting is
/// suppressed: the whole line is one verbatim run. Otherwise the line is cut
/// along the pattern's match spans into alternating verbatim and highlighted
/// runs.
pub fn render_segments(pattern: &Pattern, invert: bool, line: &str) -> (segs: Vec<Segment>)
    ensures
        invert ==> segs@.len() == 1 && segs@[0].text@ == line@ && !segs@[0].marked,
        !invert ==> segments_ok(
            line.spec_bytes(),
            regex_spans(pattern@.pat, pattern@.case_insensitive, line@),
            segs@,
        ) && spans_wf(
            line.spec_bytes(),
            regex_spans(pattern@.pat, pattern@.case_insensitive, line@),
        ),
{
    if invert {
        let mut segs: Vec<Segment> = Vec::new();
        segs.push(Segment { text: String::from_str(line), marked: false });
        segs
    } else {
        let spans = pattern.find_spans(line);
        highlight_segments(line, &spans)
    }
}

} // verus!
