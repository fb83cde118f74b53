use vstd::prelude::*;
use vstd::string::StringSliceAdditionalSpecFns;
use crate::format::Span;
use crate::format::spans_view;
use crate::format::spans_wf;

verus! {

#[verifier::external_type_specification]
#[verifier::external_body]
pub struct ExRegex(regex::Regex);

#[verifier::external_type_specification]
#[verifier::external_body]
pub struct ExRegexError(regex::Error);

/// Whether `pat` (compiled with the given case choice) is a pattern the
/// regular-expression engine accepts.
pub uninterp spec fn regex_compiles(pat: Seq<char>, case_insensitive: bool) -> bool;

/// Whether the pattern matches anywhere in the line.
pub uninterp spec fn regex_is_match(pat: Seq<char>, case_insensitive: bool, line: Seq<char>) -> bool;

/// The successive non-overlapping match spans of the pattern in the line, as
/// half-open byte ranges in increasing position order.
pub uninterp spec fn regex_spans(pat: Seq<char>, case_insensitive: bool, line: Seq<char>) -> Seq<
    (int, int),
>;

/// A compiled match predicate: a regular expression together with the source
/// text and case-sensitivity choice it was built from.
pub struct Pattern {
    re: regex::Regex,
    text: String,
    case_insensitive: bool,
}

/// The mathematical identity of a [`Pattern`]: its source text and its
/// case-sensitivity choice.
pub struct PatternModel {
    pub pat: Seq<char>,
    pub case_insensitive: bool,
}

impl View for Pattern {
    type V = PatternModel;

    closed spec fn view(&self) -> PatternModel {
        PatternModel { pat: self.text@, case_insensitive: self.case_insensitive }
    }
}

/// A pattern the engine rejected, with the engine's description of why.
pub struct PatternError {
    pub message: String,
}

/// Relies on regex's RegexBuilder::build (with case_insensitive): it succeeds
/// exactly on the patterns the engine accepts, and the compiled value matches
/// according to the given pattern text and case choice.
#[verifier::external_body]
fn pattern_build(text: &str, case_insensitive: bool) -> (r: Result<Pattern, regex::Error>)
    ensures
        r is Ok <==> regex_compiles(text@, case_insensitive),
        r matches Ok(p) ==> p@.pat == text@ && p@.case_insensitive == case_insensitive,
{
    let re = regex::RegexBuilder::new(text).case_insensitive(case_insensitive).build()?;
    Ok(Pattern { re, text: text.to_owned(), case_insensitive })
}

/// Relies on regex's Error: its display form describes what was wrong with
/// the pattern.
#[verifier::external_body]
fn regex_error_text(e: &regex::Error) -> String {
    format!("{}", e)
}

impl Pattern {
    /// Compile `text` into a match predicate; fails exactly on the pattern
    /// texts the engine rejects, with the engine's description.
    pub fn new(text: &str, case_insensitive: bool) -> (r: Result<Pattern, PatternError>)
        ensures
            r is Ok <==> regex_compiles(text@, case_insensitive),
            r matches Ok(p) ==> p@.pat == text@ && p@.case_insensitive == case_insensitive,
    {
        match pattern_build(text, case_insensitive) {
            Ok(p) => Ok(p),
            Err(e) => Err(PatternError { message: regex_error_text(&e) }),
        }
    }

    /// Relies on regex's Regex::is_match: true exactly when the pattern
    /// matches somewhere in the line; the result depends only on the pattern
    /// text, the case choice and the line.
    #[verifier::external_body]
    pub(crate) fn is_match(&self, line: &str) -> (r: bool)
        ensures
            r == regex_is_match(self@.pat, self@.case_insensitive, line@),
    {
        self.re.is_match(line)
    }

    /// Relies on regex's Regex::find_iter and Match: the successive
    /// non-overlapping matches of the pattern in the line, as half-open byte
    /// ranges that lie within the line in increasing order, each starting
    /// and ending on a character boundary; a match exists exactly when
    /// Regex::is_match reports one. The spans depend only on the pattern
    /// text, the case choice and the line.
    #[verifier::external_body]
    pub(crate) fn find_spans(&self, line: &str) -> (spans: Vec<Span>)
        ensures
            spans_view(spans@) == regex_spans(self@.pat, self@.case_insensitive, line@),
            spans_wf(line.spec_bytes(), spans_view(spans@)),
            spans@.len() > 0 <==> regex_is_match(self@.pat, self@.case_insensitive, line@),
    {
        self.re.find_iter(line).map(|m| Span { start: m.start(), end: m.end() }).collect()
    }
}

} // verus!
