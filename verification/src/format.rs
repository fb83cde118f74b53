use vstd::prelude::*;
use vstd::string::StringExecFns;
use vstd::utf8::encode_utf8;
use vstd::utf8::valid_utf8;
use vstd::utf8::is_char_boundary;
use vstd::utf8::encode_utf8_valid_utf8;
use vstd::utf8::valid_utf8_split;
use vstd::utf8::is_char_boundary_start_end_of_seq;
use vstd::utf8::is_char_boundary_iff_not_is_continuation_byte;
use vstd::string::StringSliceAdditionalSpecFns;

verus! {

/// The decimal digit character for `d`.
pub open spec fn digit_char(d: int) -> char {
    if d == 0 {
        '0'
    } else if d == 1 {
        '1'
    } else if d == 2 {
        '2'
    } else if d == 3 {
        '3'
    } else if d == 4 {
        '4'
    } else if d == 5 {
        '5'
    } else if d == 6 {
        '6'
    } else if d == 7 {
        '7'
    } else if d == 8 {
        '8'
    } else {
        '9'
    }
}

/// The decimal numeral of `n`, most significant digit first.
pub open spec fn dec_seq(n: int) -> Seq<char>
    decreases n,
{
    if n < 10 {
        seq![digit_char(n)]
    } else {
        dec_seq(n / 10).push(digit_char(n % 10))
    }
}

fn digit_str(d: usize) -> (s: &'static str)
    requires
        d < 10,
    ensures
        s@ == seq![digit_char(d as int)],
{
    if d == 0 {
        proof {
            reveal_strlit("0");
            assert("0"@ =~= seq![digit_char(0)]);
        }
        "0"
    } else if d == 1 {
        proof {
            reveal_strlit("1");
            assert("1"@ =~= seq![digit_char(1)]);
        }
        "1"
    } else if d == 2 {
        proof {
            reveal_strlit("2");
            assert("2"@ =~= seq![digit_char(2)]);
        }
        "2"
    } else if d == 3 {
        proof {
            reveal_strlit("3");
            assert("3"@ =~= seq![digit_char(3)]);
        }
        "3"
    } else if d == 4 {
        proof {
            reveal_strlit("4");
            assert("4"@ =~= seq![digit_char(4)]);
        }
        "4"
    } else if d == 5 {
        proof {
            reveal_strlit("5");
            assert("5"@ =~= seq![digit_char(5)]);
        }
        "5"
    } else if d == 6 {
        proof {
            reveal_strlit("6");
            assert("6"@ =~= seq![digit_char(6)]);
        }
        "6"
    } else if d == 7 {
        proof {
            reveal_strlit("7");
            assert("7"@ =~= seq![digit_char(7)]);
        }
        "7"
    } else if d == 8 {
        proof {
            reveal_strlit("8");
            assert("8"@ =~= seq![digit_char(8)]);
        }
        "8"
    } else {
        proof {
            reveal_strlit("9");
            assert("9"@ =~= seq![digit_char(9)]);
        }
        "9"
    }
}

/// Format `n` in decimal, most significant digit first.
pub fn dec_string(n: usize) -> (s: String)
    ensures
        s@ == dec_seq(n as int),
    decreases n,
{
    if n < 10 {
        String::from_str(digit_str(n))
    } else {
        let mut s = dec_string(n / 10);
        s.append(digit_str(n % 10));
        proof {
            assert(s@ =~= dec_seq(n as int));
        }
        s
    }
}

/// The prefix preceding an emitted line's text: the stream name and a colon
/// when labeling is on, then the 1-based line number, a colon and a space.
pub open spec fn prefix_seq(name: Seq<char>, multi: bool, index: int) -> Seq<char> {
    if multi {
        name + seq![':'] + dec_seq(index + 1) + seq![':', ' ']
    } else {
        dec_seq(index + 1) + seq![':', ' ']
    }
}

/// Render the prefix for the emitted line with 0-based index `index`:
/// `"<name>:<lineno>: "` when labeling is on, `"<lineno>: "` otherwise.
pub fn line_prefix(name: &str, multi: bool, index: usize) -> (s: String)
    requires
        index < usize::MAX,
    ensures
        s@ == prefix_seq(name@, multi, index as int),
{
    let mut s = if multi {
        let mut s = String::from_str(name);
        s.append(":");
        s
    } else {
        String::new()
    };
    let num = dec_string(index + 1);
    s.append(num.as_str());
    s.append(": ");
    proof {
        reveal_strlit(":");
        reveal_strlit(": ");
        assert(s@ =~= prefix_seq(name@, multi, index as int));
    }
    s
}

/// The count-mode summary for one stream: `"<name>: <count>"` when labeling
/// is on, `"<count>"` otherwise.
pub open spec fn count_seq(name: Seq<char>, multi: bool, count: int) -> Seq<char> {
    if multi {
        name + seq![':', ' '] + dec_seq(count)
    } else {
        dec_seq(count)
    }
}

/// Render the count-mode summary for one stream.
pub fn count_summary(name: &str, multi: bool, count: usize) -> (s: String)
    ensures
        s@ == count_seq(name@, multi, count as int),
{
    let num = dec_string(count);
    if multi {
        let mut s = String::from_str(name);
        s.append(": ");
        s.append(num.as_str());
        proof {
            reveal_strlit(": ");
            assert(s@ =~= count_seq(name@, multi, count as int));
        }
        s
    } else {
        num
    }
}

/// A half-open byte range of a line, as the pattern engine reports a match.
pub struct Span {
    pub start: usize,
    pub end: usize,
}

/// A run of a line's text; marked runs are the pattern matches a renderer is
/// to highlight, unmarked runs are printed verbatim.
pub struct Segment {
    pub text: String,
    pub marked: bool,
}

/// The byte ranges of `spans`, as mathematical pairs.
pub open spec fn spans_view(spans: Seq<Span>) -> Seq<(int, int)> {
    Seq::new(spans.len(), |m: int| (spans[m].start as int, spans[m].end as int))
}

/// Spans lie within the line, are ordered and non-overlapping, and begin and
/// end on character boundaries.
pub open spec fn spans_wf(bytes: Seq<u8>, spans: Seq<(int, int)>) -> bool {
    &&& forall|m: int|
        0 <= m < spans.len() ==> 0 <= (#[trigger] spans[m]).0 && spans[m].0 <= spans[m].1
            && spans[m].1 <= bytes.len()
    &&& forall|m: int| 0 <= m < spans.len() - 1 ==> (#[trigger] spans[m]).1 <= spans[m + 1].0
    &&& forall|m: int|
        0 <= m < spans.len() ==> is_char_boundary(bytes, (#[trigger] spans[m]).0)
            && is_char_boundary(bytes, spans[m].1)
}

/// Where the unmarked run before span `m` begins: at the end of the previous
/// span, or at the start of the line for the first.
pub open spec fn gap_start(spans: Seq<(int, int)>, m: int) -> int {
    if m == 0 {
        0
    } else {
        spans[m - 1].1
    }
}

/// The alternating decomposition of a line along its match spans: segment
/// `2m` is the unmarked gap before span `m` (or before the end of the line,
/// for the last segment), segment `2m + 1` is span `m` itself, marked.
pub open spec fn segments_ok(bytes: Seq<u8>, spans: Seq<(int, int)>, segs: Seq<Segment>) -> bool {
    &&& segs.len() == 2 * spans.len() + 1
    &&& forall|m: int|
        0 <= m < spans.len() ==> encode_utf8((#[trigger] segs[2 * m + 1]).text@)
            == bytes.subrange(spans[m].0, spans[m].1) && segs[2 * m + 1].marked
    &&& forall|m: int|
        0 <= m < spans.len() ==> encode_utf8((#[trigger] segs[2 * m]).text@) == bytes.subrange(
            gap_start(spans, m),
            spans[m].0,
        ) && !segs[2 * m].marked
    &&& encode_utf8(segs[2 * spans.len() as int].text@) == bytes.subrange(
        gap_start(spans, spans.len() as int),
        bytes.len() as int,
    ) && !segs[2 * spans.len() as int].marked
}

/// A character boundary of a line is still one of any prefix of the line cut
/// at a character boundary.
proof fn lemma_boundary_prefix(bytes: Seq<u8>, e: int, i: int)
    requires
        valid_utf8(bytes),
        is_char_boundary(bytes, e),
        is_char_boundary(bytes, i),
        0 <= i <= e <= bytes.len(),
    ensures
        valid_utf8(bytes.subrange(0, e)),
        is_char_boundary(bytes.subrange(0, e), i),
{
    valid_utf8_split(bytes, e);
    let pre = bytes.subrange(0, e);
    if i == e {
        is_char_boundary_start_end_of_seq(pre);
    } else if i > 0 {
        is_char_boundary_iff_not_is_continuation_byte(bytes, i);
        is_char_boundary_iff_not_is_continuation_byte(pre, i);
        assert(pre[i] == bytes[i]);
    }
}

/// Decompose a line along its match spans into alternating verbatim and
/// highlighted runs, preserving every character.
pub fn highlight_segments(line: &str, spans: &Vec<Span>) -> (segs: Vec<Segment>)
    requires
        spans_wf(line.spec_bytes(), spans_view(spans@)),
    ensures
        segments_ok(line.spec_bytes(), spans_view(spans@), segs@),
{
    let ghost bytes = line.spec_bytes();
    let ghost sv = spans_view(spans@);
    proof {
        encode_utf8_valid_utf8(line@);
    }
    let mut segs: Vec<Segment> = Vec::new();
    let mut cur: usize = 0;
    let mut m: usize = 0;
    let n_spans = spans.len();
    while m < n_spans
        invariant
            n_spans == spans@.len(),
            m <= n_spans,
            sv == spans_view(spans@),
            bytes == line.spec_bytes(),
            valid_utf8(bytes),
            spans_wf(bytes, sv),
            cur as int == gap_start(sv, m as int),
            cur <= bytes.len(),
            is_char_boundary(bytes, cur as int),
            segs@.len() == 2 * m,
            forall|q: int|
                0 <= q < m ==> encode_utf8((#[trigger] segs@[2 * q + 1]).text@)
                    == bytes.subrange(sv[q].0, sv[q].1) && segs@[2 * q + 1].marked,
            forall|q: int|
                0 <= q < m ==> encode_utf8((#[trigger] segs@[2 * q]).text@) == bytes.subrange(
                    gap_start(sv, q),
                    sv[q].0,
                ) && !segs@[2 * q].marked,
        decreases n_spans - m,
    {
        let sp_start = spans[m].start;
        let sp_end = spans[m].end;
        proof {
            assert(sv[m as int] == (sp_start as int, sp_end as int));
            if m > 0 {
                assert(sv[m as int - 1].1 <= sv[m as int].0);
            }
            lemma_boundary_prefix(bytes, sp_start as int, cur as int);
        }
        let (head, _) = line.split_at(sp_start);
        proof {
            assert(head.spec_bytes() =~= bytes.subrange(0, sp_start as int));
        }
        let (_, gap) = head.split_at(cur);
        proof {
            assert(gap.spec_bytes() =~= bytes.subrange(cur as int, sp_start as int));
        }
        segs.push(Segment { text: gap.to_owned(), marked: false });
        proof {
            lemma_boundary_prefix(bytes, sp_end as int, sp_start as int);
        }
        let (head2, _) = line.split_at(sp_end);
        proof {
            assert(head2.spec_bytes() =~= bytes.subrange(0, sp_end as int));
        }
        let (_, mat) = head2.split_at(sp_start);
        proof {
            assert(mat.spec_bytes() =~= bytes.subrange(sp_start as int, sp_end as int));
        }
        segs.push(Segment { text: mat.to_owned(), marked: true });
        cur = sp_end;
        m = m + 1;
        proof {
            assert(cur as int == gap_start(sv, m as int));
        }
    }
    proof {
        is_char_boundary_start_end_of_seq(bytes);
    }
    let (_, tail) = line.split_at(cur);
    proof {
        assert(tail.spec_bytes() =~= bytes.subrange(cur as int, bytes.len() as int));
    }
    segs.push(Segment { text: tail.to_owned(), marked: false });
    segs
}

/// The concatenated bytes of a decomposition's segments.
pub open spec fn segments_bytes(segs: Seq<Segment>) -> Seq<u8>
    decreases segs.len(),
{
    if segs.len() == 0 {
        Seq::empty()
    } else {
        encode_utf8(segs[0].text@) + segments_bytes(segs.drop_first())
    }
}

proof fn lemma_segments_tail(bytes: Seq<u8>, spans: Seq<(int, int)>, segs: Seq<Segment>, m: int)
    requires
        spans_wf(bytes, spans),
        segments_ok(bytes, spans, segs),
        0 <= m <= spans.len(),
    ensures
        segments_bytes(segs.skip(2 * m)) == bytes.subrange(gap_start(spans, m), bytes.len() as int),
    decreases spans.len() - m,
{
    let tail = segs.skip(2 * m);
    if m == spans.len() {
        assert(tail.len() == 1);
        assert(tail[0] == segs[2 * m]);
        assert(tail.drop_first().len() == 0);
        assert(segments_bytes(tail) == encode_utf8(tail[0].text@) + segments_bytes(
            tail.drop_first(),
        ));
        assert(segments_bytes(tail.drop_first()) =~= Seq::<u8>::empty());
        assert(segments_bytes(tail) =~= encode_utf8(segs[2 * m].text@));
    } else {
        lemma_segments_tail(bytes, spans, segs, m + 1);
        let mid = segs.skip(2 * m + 1);
        let rest = segs.skip(2 * (m + 1));
        assert(tail[0] == segs[2 * m]);
        assert(tail.drop_first() =~= mid);
        assert(mid[0] == segs[2 * m + 1]);
        assert(mid.drop_first() =~= rest);
        let a1 = bytes.subrange(gap_start(spans, m), spans[m].0);
        let a2 = bytes.subrange(spans[m].0, spans[m].1);
        let a3 = bytes.subrange(gap_start(spans, m + 1), bytes.len() as int);
        assert(gap_start(spans, m + 1) == spans[m].1);
        assert(encode_utf8(segs[2 * m].text@) == a1);
        assert(encode_utf8(segs[2 * m + 1].text@) == a2);
        assert(segments_bytes(rest) == a3);
        assert(segments_bytes(tail) == encode_utf8(tail[0].text@) + segments_bytes(
            tail.drop_first(),
        ));
        assert(segments_bytes(mid) == encode_utf8(mid[0].text@) + segments_bytes(
            mid.drop_first(),
        ));
        assert(segments_bytes(tail) == a1 + (a2 + a3));
        assert(gap_start(spans, m) <= spans[m].0);
        assert(segments_bytes(tail) =~= bytes.subrange(gap_start(spans, m), bytes.len() as int));
    }
}

/// A decomposition along match spans changes and loses nothing: its
/// segments concatenate back to exactly the original line.
pub proof fn lemma_segments_preserve_line(
    bytes: Seq<u8>,
    spans: Seq<(int, int)>,
    segs: Seq<Segment>,
)
    requires
        spans_wf(bytes, spans),
        segments_ok(bytes, spans, segs),
    ensures
        segments_bytes(segs) == bytes,
{
    lemma_segments_tail(bytes, spans, segs, 0);
    assert(segs.skip(0) =~= segs);
    assert(bytes.subrange(0, bytes.len() as int) =~= bytes);
}

} // verus!
