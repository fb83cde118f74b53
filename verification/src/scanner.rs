use vstd::prelude::*;
use std::collections::VecDeque;
use crate::config::ContextConfig;

verus! {

/// One record of scan output: the 0-based index of the line in its stream,
/// the line's text, and whether the line itself satisfied the (possibly
/// inverted) match predicate or is only context.
pub struct Emitted {
    pub index: usize,
    pub text: String,
    pub matched: bool,
}

/// Line `i` lies in the context window of some predicate-satisfying line
/// among the first `k` lines of the stream.
pub open spec fn covered_upto(flags: Seq<bool>, before: int, after: int, i: int, k: int) -> bool {
    exists|j: int| 0 <= j < k && flags[j] && j - before <= i && i <= j + after
}

/// Line `i` lies in the context window of some predicate-satisfying line.
pub open spec fn covered(flags: Seq<bool>, before: int, after: int, i: int) -> bool {
    covered_upto(flags, before, after, i, flags.len() as int)
}

/// What a full scan of a stream emits: records for exactly the lines inside
/// some context window, in stream order, each line at most once, every record
/// carrying its line's text and match classification.
pub open spec fn scan_ok(
    lines: Seq<Seq<char>>,
    flags: Seq<bool>,
    before: int,
    after: int,
    out: Seq<Emitted>,
) -> bool {
    &&& forall|t: int| 0 <= t < out.len() ==> (#[trigger] out[t]).index < lines.len()
    &&& forall|t1: int, t2: int|
        0 <= t1 < t2 < out.len() ==> #[trigger] out[t1].index < #[trigger] out[t2].index
    &&& forall|t: int|
        0 <= t < out.len() ==> (#[trigger] out[t]).text@ == lines[out[t].index as int]
    &&& forall|t: int|
        0 <= t < out.len() ==> (#[trigger] out[t]).matched == flags[out[t].index as int]
    &&& forall|i: int|
        0 <= i < lines.len() ==> (covered(flags, before, after, i) <==> exists|t: int|
            0 <= t < out.len() && (#[trigger] out[t]).index == i)
}

/// The after-context countdown the scan algorithm holds once the first `k`
/// lines have been consumed: reset to `after` by a predicate-satisfying line,
/// decremented by each emitted after-context line, floored at zero.
pub open spec fn cd_spec(flags: Seq<bool>, after: int, k: int) -> int
    decreases k,
{
    if k <= 0 {
        0
    } else if flags[k - 1] {
        after
    } else if cd_spec(flags, after, k - 1) > 0 {
        cd_spec(flags, after, k - 1) - 1
    } else {
        0
    }
}

/// The index of the last predicate-satisfying line among the first `k`,
/// or -1 if there is none.
pub open spec fn last_match(flags: Seq<bool>, k: int) -> int
    decreases k,
{
    if k <= 0 {
        -1
    } else if flags[k - 1] {
        k - 1
    } else {
        last_match(flags, k - 1)
    }
}

proof fn lemma_last_match(flags: Seq<bool>, k: int)
    requires
        0 <= k <= flags.len(),
    ensures
        -1 <= last_match(flags, k) < k,
        last_match(flags, k) >= 0 ==> flags[last_match(flags, k)],
        forall|j: int| 0 <= j < k && #[trigger] flags[j] ==> j <= last_match(flags, k),
    decreases k,
{
    if k > 0 {
        lemma_last_match(flags, k - 1);
    }
}

proof fn lemma_cd_value(flags: Seq<bool>, after: int, k: int)
    requires
        0 <= k <= flags.len(),
        after >= 0,
    ensures
        last_match(flags, k) < 0 ==> cd_spec(flags, after, k) == 0,
        last_match(flags, k) >= 0 ==> cd_spec(flags, after, k) == if last_match(flags, k) + after
            - k + 1 > 0 {
            last_match(flags, k) + after - k + 1
        } else {
            0
        },
    decreases k,
{
    if k > 0 {
        lemma_cd_value(flags, after, k - 1);
        lemma_last_match(flags, k - 1);
    }
}

/// The countdown is positive exactly when some already-seen predicate-
/// satisfying line still reaches line `k` with its after-context.
proof fn lemma_cd_pos(flags: Seq<bool>, after: int, k: int)
    requires
        0 <= k <= flags.len(),
        after >= 0,
    ensures
        cd_spec(flags, after, k) > 0 <==> exists|j: int|
            0 <= j < k && #[trigger] flags[j] && j + after >= k,
        cd_spec(flags, after, k) >= 0,
        cd_spec(flags, after, k) <= after,
{
    lemma_cd_value(flags, after, k);
    lemma_last_match(flags, k);
    let lm = last_match(flags, k);
    if cd_spec(flags, after, k) > 0 {
        assert(0 <= lm < k && flags[lm] && lm + after >= k);
    }
    if exists|j: int| 0 <= j < k && #[trigger] flags[j] && j + after >= k {
        let j = choose|j: int| 0 <= j < k && #[trigger] flags[j] && j + after >= k;
        assert(j <= lm);
        assert(lm + after >= k);
    }
}

/// Adding one more line extends the covered set by that line's window when it
/// satisfies the predicate, and not at all otherwise.
proof fn lemma_covered_step(flags: Seq<bool>, before: int, after: int, i: int, k: int)
    requires
        0 <= k < flags.len(),
    ensures
        covered_upto(flags, before, after, i, k + 1) <==> (covered_upto(flags, before, after, i, k)
            || (flags[k] && k - before <= i && i <= k + after)),
{
    if covered_upto(flags, before, after, i, k) {
        let j = choose|j: int| 0 <= j < k && flags[j] && j - before <= i && i <= j + after;
        assert(0 <= j < k + 1 && flags[j] && j - before <= i && i <= j + after);
    }
    if flags[k] && k - before <= i && i <= k + after {
        assert(0 <= k < k + 1 && flags[k] && k - before <= i && i <= k + after);
    }
    if covered_upto(flags, before, after, i, k + 1) && !(flags[k] && k - before <= i && i <= k
        + after) {
        let j = choose|j: int| 0 <= j < k + 1 && flags[j] && j - before <= i && i <= j + after;
        assert(j != k);
        assert(0 <= j < k && flags[j] && j - before <= i && i <= j + after);
    }
}

/// What one step of the scan algorithm does, given the state it starts from
/// (`k` lines already consumed, look-behind buffer `buf`, countdown `cd`) and
/// the next line: which records it emits and the state it leaves behind.
pub open spec fn step_post(
    before: int,
    after: int,
    k: int,
    buf: Seq<Emitted>,
    cd: int,
    text: Seq<char>,
    is_match: bool,
    emit: Seq<Emitted>,
    buf2: Seq<Emitted>,
    cd2: int,
) -> bool {
    if is_match {
        // flush the whole look-behind buffer, then the match itself
        &&& emit.len() == buf.len() + 1
        &&& forall|m: int| 0 <= m < buf.len() ==> #[trigger] emit[m] == buf[m]
        &&& emit.last().index == k
        &&& emit.last().text@ == text
        &&& emit.last().matched
        &&& buf2.len() == 0
        &&& cd2 == after
    } else if cd > 0 {
        // the line is claimed as after-context
        &&& emit.len() == 1
        &&& emit[0].index == k
        &&& emit[0].text@ == text
        &&& !emit[0].matched
        &&& buf2 == buf
        &&& cd2 == cd - 1
    } else {
        // buffer the line as potential before-context, oldest entry evicted
        &&& emit.len() == 0
        &&& cd2 == 0
        &&& buf2.len() == (if buf.len() < before {
            buf.len() + 1
        } else {
            buf.len()
        })
        &&& forall|m: int|
            0 <= m < buf2.len() - 1 ==> #[trigger] buf2[m] == buf[m + (buf.len() + 1
                - buf2.len())]
        &&& buf2.len() > 0 ==> buf2.last().index == k && buf2.last().text@ == text
            && !buf2.last().matched
    }
}

/// The per-stream scan state: a bounded FIFO of pending before-context lines
/// and the after-context countdown, together with the configured window sizes
/// and the index of the next line to arrive.
pub struct Scanner {
    before: usize,
    after: usize,
    buffer: VecDeque<Emitted>,
    countdown: usize,
    next: usize,
}

/// The mathematical state of a [`Scanner`].
pub struct ScannerModel {
    pub before: int,
    pub after: int,
    pub buffer: Seq<Emitted>,
    pub countdown: int,
    pub next: int,
}

impl View for Scanner {
    type V = ScannerModel;

    closed spec fn view(&self) -> ScannerModel {
        ScannerModel {
            before: self.before as int,
            after: self.after as int,
            buffer: self.buffer@,
            countdown: self.countdown as int,
            next: self.next as int,
        }
    }
}

impl Scanner {
    /// The scanner's invariant: the look-behind buffer never holds more than
    /// `before` records; its records are the most recent lines, contiguous and
    /// ending just before the next line to arrive, none of them classified as
    /// a match; and a positive after-context countdown implies the buffer is
    /// empty.
    pub open spec fn wf(self) -> bool {
        &&& self@.buffer.len() <= self@.before
        &&& self@.buffer.len() <= self@.next
        &&& self@.countdown <= self@.after
        &&& self@.countdown > 0 ==> self@.buffer.len() == 0
        &&& forall|m: int|
            0 <= m < self@.buffer.len() ==> (#[trigger] self@.buffer[m]).index == self@.next
                - self@.buffer.len() + m
        &&& forall|m: int| 0 <= m < self@.buffer.len() ==> !(#[trigger] self@.buffer[m]).matched
    }

    /// A fresh scanner for one stream.
    pub fn new(config: &ContextConfig) -> (s: Scanner)
        ensures
            s.wf(),
            s@.before == config.before,
            s@.after == config.after,
            s@.next == 0,
            s@.countdown == 0,
            s@.buffer.len() == 0,
    {
        Scanner {
            before: config.before,
            after: config.after,
            buffer: VecDeque::new(),
            countdown: 0,
            next: 0,
        }
    }

    /// How many lines the scanner has consumed so far.
    pub fn lines_seen(&self) -> (n: usize)
        ensures
            n == self@.next,
    {
        self.next
    }

    /// Feed the scanner the next line of its stream together with the line's
    /// (possibly inverted) predicate result; returns the records the
    /// algorithm emits at this step, in stream order.
    pub fn step(&mut self, text: String, is_match: bool) -> (out: Vec<Emitted>)
        requires
            old(self).wf(),
            old(self)@.next < usize::MAX,
        ensures
            final(self).wf(),
            final(self)@.before == old(self)@.before,
            final(self)@.after == old(self)@.after,
            final(self)@.next == old(self)@.next + 1,
            step_post(
                old(self)@.before,
                old(self)@.after,
                old(self)@.next,
                old(self)@.buffer,
                old(self)@.countdown,
                text@,
                is_match,
                out@,
                final(self)@.buffer,
                final(self)@.countdown,
            ),
    {
        let index = self.next;
        self.next = self.next + 1;
        if is_match {
            let ghost buf0 = self.buffer@;
            let mut out: Vec<Emitted> = Vec::new();
            loop
                invariant
                    out@ + self.buffer@ == buf0,
                    self.before == old(self).before,
                    self.after == old(self).after,
                    self.countdown == old(self).countdown,
                    self.next == old(self)@.next + 1,
                ensures
                    out@ + self.buffer@ == buf0,
                    self.buffer@.len() == 0,
                    self.before == old(self).before,
                    self.after == old(self).after,
                    self.countdown == old(self).countdown,
                    self.next == old(self)@.next + 1,
                decreases self.buffer@.len(),
            {
                match self.buffer.pop_front() {
                    Some(rec) => {
                        out.push(rec);
                        proof {
                            assert(out@ + self.buffer@ =~= buf0);
                        }
                    },
                    None => {
                        break ;
                    },
                }
            }
            proof {
                assert(out@ =~= buf0);
            }
            out.push(Emitted { index, text, matched: true });
            self.countdown = self.after;
            out
        } else if self.countdown > 0 {
            self.countdown = self.countdown - 1;
            let mut out: Vec<Emitted> = Vec::new();
            out.push(Emitted { index, text, matched: false });
            out
        } else {
            self.buffer.push_back(Emitted { index, text, matched: false });
            if self.buffer.len() > self.before {
                let _ = self.buffer.pop_front();
            }
            Vec::new()
        }
    }
}

/// Everything that holds of the scan after `k` lines have been consumed:
/// `out` is sorted output of exactly the so-far covered lines with their
/// texts and classifications, `buf` holds the most recent unemitted lines
/// (all of them uncovered so far, and all recent uncovered lines), and `cd`
/// is the after-context countdown.
spec fn scan_inv(
    lines: Seq<Seq<char>>,
    flags: Seq<bool>,
    before: int,
    after: int,
    k: int,
    out: Seq<Emitted>,
    buf: Seq<Emitted>,
    cd: int,
) -> bool {
    &&& forall|t: int| 0 <= t < out.len() ==> (#[trigger] out[t]).index < k
    &&& forall|t1: int, t2: int|
        0 <= t1 < t2 < out.len() ==> #[trigger] out[t1].index < #[trigger] out[t2].index
    &&& forall|t: int|
        0 <= t < out.len() ==> (#[trigger] out[t]).text@ == lines[out[t].index as int]
    &&& forall|t: int|
        0 <= t < out.len() ==> (#[trigger] out[t]).matched == flags[out[t].index as int]
    &&& forall|i: int|
        0 <= i < k ==> (covered_upto(flags, before, after, i, k) <==> exists|t: int|
            0 <= t < out.len() && (#[trigger] out[t]).index == i)
    &&& buf.len() <= before
    &&& buf.len() <= k
    &&& forall|m: int|
        0 <= m < buf.len() ==> (#[trigger] buf[m]).index == k - buf.len() + m
    &&& forall|m: int|
        0 <= m < buf.len() ==> !covered_upto(
            flags,
            before,
            after,
            (#[trigger] buf[m]).index as int,
            k,
        )
    &&& forall|m: int|
        0 <= m < buf.len() ==> (#[trigger] buf[m]).text@ == lines[buf[m].index as int]
    &&& forall|m: int| 0 <= m < buf.len() ==> !flags[(#[trigger] buf[m]).index as int]
    &&& forall|m: int| 0 <= m < buf.len() ==> !(#[trigger] buf[m]).matched
    &&& forall|i: int|
        0 <= i < k && k - before <= i && !#[trigger] covered_upto(flags, before, after, i, k)
            ==> k - buf.len() <= i
    &&& cd == cd_spec(flags, after, k)
}

/// One step of the algorithm preserves the scan invariant.
proof fn lemma_step_preserves(
    lines: Seq<Seq<char>>,
    flags: Seq<bool>,
    before: int,
    after: int,
    k: int,
    out: Seq<Emitted>,
    buf: Seq<Emitted>,
    cd: int,
    emit: Seq<Emitted>,
    buf2: Seq<Emitted>,
    cd2: int,
)
    requires
        lines.len() == flags.len(),
        0 <= k < flags.len(),
        0 <= before,
        0 <= after,
        scan_inv(lines, flags, before, after, k, out, buf, cd),
        step_post(before, after, k, buf, cd, lines[k], flags[k], emit, buf2, cd2),
    ensures
        scan_inv(lines, flags, before, after, k + 1, out + emit, buf2, cd2),
{
    let out2 = out + emit;
    let is_match = flags[k];
    lemma_cd_pos(flags, after, k);
    if is_match {
        let bl = buf.len() as int;
        let s = k - bl;
        // emitted records of the flush have the buffer's indices
        assert forall|m: int| 0 <= m < bl implies (#[trigger] emit[m]).index == s + m by {
            assert(emit[m] == buf[m]);
        }
        // all previously emitted indices lie below the buffer
        assert forall|t: int| 0 <= t < out.len() implies (#[trigger] out[t]).index < s by {
            let i = out[t].index as int;
            assert(covered_upto(flags, before, after, i, k));
            if i >= s {
                let m = i - s;
                assert(buf[m].index == i);
                assert(!covered_upto(flags, before, after, i, k));
            }
        }
        // order across the concatenation
        assert forall|t1: int, t2: int| 0 <= t1 < t2 < out2.len() implies #[trigger] out2[t1].index
            < #[trigger] out2[t2].index by {
            if t2 < out.len() {
                assert(out2[t1] == out[t1] && out2[t2] == out[t2]);
            } else if t1 >= out.len() {
                assert(out2[t1] == emit[t1 - out.len()] && out2[t2] == emit[t2 - out.len()]);
            } else {
                assert(out2[t1] == out[t1] && out2[t2] == emit[t2 - out.len()]);
                assert(out2[t1].index < s);
                if t2 - out.len() < bl {
                    assert(out2[t2].index == s + (t2 - out.len()));
                } else {
                    assert(out2[t2].index == k);
                }
            }
        }
        // texts and classification of the new records
        assert forall|t: int| out.len() <= t < out2.len() implies (#[trigger] out2[t]).text@
            == lines[out2[t].index as int] && out2[t].matched == flags[out2[t].index as int]
            && out2[t].index < k + 1 by {
            let m = t - out.len();
            assert(out2[t] == emit[m]);
            if m < bl {
                assert(emit[m] == buf[m]);
            } else {
                assert(emit[m] == emit.last());
            }
        }
        // the emitted set is now exactly the covered set
        assert forall|i: int|
            #![trigger covered_upto(flags, before, after, i, k + 1)]
            0 <= i < k + 1 implies (covered_upto(flags, before, after, i, k + 1)
            <==> exists|t: int| 0 <= t < out2.len() && (#[trigger] out2[t]).index == i) by {
            lemma_covered_step(flags, before, after, i, k);
            if i == k {
                assert(out2[out2.len() - 1] == emit.last());
                assert(out2[out2.len() - 1].index == i);
                assert(covered_upto(flags, before, after, i, k + 1));
            } else {
                if covered_upto(flags, before, after, i, k) {
                    let t = choose|t: int| 0 <= t < out.len() && (#[trigger] out[t]).index == i;
                    assert(out2[t] == out[t]);
                    assert(out2[t].index == i);
                } else if k - before <= i && i <= k + after {
                    assert(i < k && k - before <= i && !covered_upto(
                        flags,
                        before,
                        after,
                        i,
                        k,
                    ));
                    let m = i - s;
                    assert(buf[m].index == i);
                    assert(out2[out.len() + m] == emit[m] && emit[m] == buf[m]);
                    assert(out2[out.len() + m].index == i);
                }
                if exists|t: int| 0 <= t < out2.len() && (#[trigger] out2[t]).index == i {
                    let t = choose|t: int| 0 <= t < out2.len() && (#[trigger] out2[t]).index
                        == i;
                    if t < out.len() {
                        assert(out[t].index == i);
                        assert(covered_upto(flags, before, after, i, k));
                    } else {
                        let m = t - out.len();
                        assert(out2[t] == emit[m]);
                        if m < bl {
                            assert(emit[m] == buf[m]);
                            assert(i == s + m);
                            assert(k - before <= i && i <= k + after);
                        }
                    }
                    assert(covered_upto(flags, before, after, i, k + 1));
                }
            }
        }
        // every recent line is covered now, so an empty buffer is complete
        assert forall|i: int| 0 <= i < k + 1 && k + 1 - before <= i && !#[trigger] covered_upto(
            flags,
            before,
            after,
            i,
            k + 1,
        ) implies k + 1 - buf2.len() <= i by {
            lemma_covered_step(flags, before, after, i, k);
            assert(k - before <= i && i <= k + after);
        }
        assert(cd2 == cd_spec(flags, after, k + 1));
    } else if cd > 0 {
        // the countdown is live, so some match's after-window reaches line k
        let j = choose|j: int| 0 <= j < k && #[trigger] flags[j] && j + after >= k;
        // and the buffer must therefore be empty
        assert(buf.len() == 0) by {
            if buf.len() > 0 {
                let i = buf[0].index as int;
                assert(i == k - buf.len());
                assert(j - before <= i && i <= j + after);
                assert(covered_upto(flags, before, after, i, k));
                assert(!covered_upto(flags, before, after, buf[0].index as int, k));
            }
        }
        assert(covered_upto(flags, before, after, k, k + 1)) by {
            assert(0 <= j < k + 1 && flags[j] && j - before <= k && k <= j + after);
        }
        assert(out2[out2.len() - 1] == emit[0]);
        assert forall|i: int|
            #![trigger covered_upto(flags, before, after, i, k + 1)]
            0 <= i < k + 1 implies (covered_upto(flags, before, after, i, k + 1)
            <==> exists|t: int| 0 <= t < out2.len() && (#[trigger] out2[t]).index == i) by {
            lemma_covered_step(flags, before, after, i, k);
            if i == k {
                assert(out2[out2.len() - 1].index == i);
            } else {
                if covered_upto(flags, before, after, i, k) {
                    let t = choose|t: int| 0 <= t < out.len() && (#[trigger] out[t]).index == i;
                    assert(out2[t] == out[t]);
                    assert(out2[t].index == i);
                }
                if exists|t: int| 0 <= t < out2.len() && (#[trigger] out2[t]).index == i {
                    let t = choose|t: int| 0 <= t < out2.len() && (#[trigger] out2[t]).index
                        == i;
                    assert(t < out.len());
                    assert(out[t].index == i);
                    assert(covered_upto(flags, before, after, i, k + 1));
                }
            }
        }
        assert forall|t1: int, t2: int| 0 <= t1 < t2 < out2.len() implies #[trigger] out2[t1].index
            < #[trigger] out2[t2].index by {
            if t2 < out.len() {
                assert(out2[t1] == out[t1] && out2[t2] == out[t2]);
            } else {
                assert(out2[t1] == out[t1] && out2[t2] == emit[0]);
            }
        }
        assert forall|i: int| 0 <= i < k + 1 && k + 1 - before <= i && !#[trigger] covered_upto(
            flags,
            before,
            after,
            i,
            k + 1,
        ) implies k + 1 - buf2.len() <= i by {
            lemma_covered_step(flags, before, after, i, k);
            if i < k {
                assert(!covered_upto(flags, before, after, i, k));
                assert(k - before <= i);
            }
        }
        assert(cd2 == cd_spec(flags, after, k + 1));
    } else {
        // the line is buffered: nothing is emitted and nothing new is covered
        assert(out2 =~= out);
        assert(!covered_upto(flags, before, after, k, k + 1)) by {
            lemma_covered_step(flags, before, after, k, k);
            if covered_upto(flags, before, after, k, k) {
                let j = choose|j: int|
                    0 <= j < k && flags[j] && j - before <= k && k <= j + after;
                assert(0 <= j < k && flags[j] && j + after >= k);
            }
        }
        let bl = buf.len() as int;
        let bl2 = buf2.len() as int;
        let drop = bl + 1 - bl2;
        assert forall|i: int|
            #![trigger covered_upto(flags, before, after, i, k + 1)]
            0 <= i < k + 1 implies (covered_upto(flags, before, after, i, k + 1)
            <==> exists|t: int| 0 <= t < out2.len() && (#[trigger] out2[t]).index == i) by {
            lemma_covered_step(flags, before, after, i, k);
            if i == k {
                if exists|t: int| 0 <= t < out2.len() && (#[trigger] out2[t]).index == i {
                    let t = choose|t: int| 0 <= t < out2.len() && (#[trigger] out2[t]).index
                        == i;
                    assert(out[t].index < k);
                }
            } else {
                if covered_upto(flags, before, after, i, k) {
                    let t = choose|t: int| 0 <= t < out.len() && (#[trigger] out[t]).index == i;
                    assert(out2[t].index == i);
                }
            }
        }
        // the new buffer is still contiguous, uncovered and complete
        assert forall|m: int| 0 <= m < bl2 implies (#[trigger] buf2[m]).index == k + 1 - bl2 + m
            && !covered_upto(flags, before, after, buf2[m].index as int, k + 1)
            && buf2[m].text@ == lines[buf2[m].index as int] && !flags[buf2[m].index as int]
            && !buf2[m].matched by {
            lemma_covered_step(flags, before, after, buf2[m].index as int, k);
            if m < bl2 - 1 {
                assert(buf2[m] == buf[m + drop]);
                assert(buf[m + drop].index == k - bl + m + drop);
                lemma_covered_step(flags, before, after, buf[m + drop].index as int, k);
            } else {
                assert(buf2[m] == buf2.last());
                assert(buf2[m].index == k);
            }
        }
        assert forall|i: int| 0 <= i < k + 1 && k + 1 - before <= i && !#[trigger] covered_upto(
            flags,
            before,
            after,
            i,
            k + 1,
        ) implies k + 1 - bl2 <= i by {
            lemma_covered_step(flags, before, after, i, k);
            if i < k {
                assert(!covered_upto(flags, before, after, i, k));
                if k - before <= i {
                    assert(k - bl <= i);
                }
                if bl2 == bl + 1 {
                    assert(k + 1 - bl2 == k - bl);
                } else {
                    assert(bl == before);
                }
            } else {
                assert(i == k);
                assert(bl2 >= 1) by {
                    if before > 0 {
                        assert(bl2 == if bl < before { bl + 1 } else { bl });
                    } else {
                        assert(k + 1 - before <= i);
                    }
                }
            }
        }
        assert(cd2 == cd_spec(flags, after, k + 1));
    }
}

/// Number of lines among the first `k` of the stream that lie in some
/// context window: what count mode reports, and exactly how many records
/// print mode emits.
pub open spec fn window_count(flags: Seq<bool>, before: int, after: int, k: int) -> int
    decreases k,
{
    if k <= 0 {
        0
    } else {
        window_count(flags, before, after, k - 1) + if covered(flags, before, after, k - 1) {
            1int
        } else {
            0int
        }
    }
}

/// A strictly ordered output of exactly the covered line indices below `k`
/// has as many records as there are covered indices below `k`.
proof fn lemma_sorted_iff_count(
    flags: Seq<bool>,
    before: int,
    after: int,
    out: Seq<Emitted>,
    k: int,
)
    requires
        0 <= k <= flags.len(),
        forall|t: int| 0 <= t < out.len() ==> (#[trigger] out[t]).index < k,
        forall|t1: int, t2: int|
            0 <= t1 < t2 < out.len() ==> #[trigger] out[t1].index < #[trigger] out[t2].index,
        forall|i: int|
            0 <= i < k ==> (covered(flags, before, after, i) <==> exists|t: int|
                0 <= t < out.len() && (#[trigger] out[t]).index == i),
    ensures
        out.len() == window_count(flags, before, after, k),
    decreases k,
{
    if k == 0 {
        if out.len() > 0 {
            assert(out[0].index < 0);
        }
    } else if covered(flags, before, after, k - 1) {
        let t = choose|t: int| 0 <= t < out.len() && (#[trigger] out[t]).index == k - 1;
        assert(t == out.len() - 1) by {
            if t < out.len() - 1 {
                assert(out[t].index < out[out.len() - 1].index);
                assert(out[out.len() - 1].index < k);
            }
        }
        let out1 = out.drop_last();
        assert forall|tt: int| 0 <= tt < out1.len() implies (#[trigger] out1[tt]).index < k
            - 1 by {
            assert(out1[tt] == out[tt]);
            assert(out[tt].index < out[t].index);
        }
        assert forall|t1: int, t2: int| 0 <= t1 < t2 < out1.len() implies #[trigger] out1[t1].index
            < #[trigger] out1[t2].index by {
            assert(out1[t1] == out[t1] && out1[t2] == out[t2]);
        }
        assert forall|i: int| 0 <= i < k - 1 implies (covered(flags, before, after, i)
            <==> exists|tt: int| 0 <= tt < out1.len() && (#[trigger] out1[tt]).index == i) by {
            if covered(flags, before, after, i) {
                let tt = choose|tt: int| 0 <= tt < out.len() && (#[trigger] out[tt]).index == i;
                assert(tt != t);
                assert(tt < t || out[t].index < out[tt].index);
                assert(out1[tt] == out[tt]);
                assert(out1[tt].index == i);
            }
            if exists|tt: int| 0 <= tt < out1.len() && (#[trigger] out1[tt]).index == i {
                let tt = choose|tt: int| 0 <= tt < out1.len() && (#[trigger] out1[tt]).index
                    == i;
                assert(out[tt].index == i);
                assert(covered(flags, before, after, i));
            }
        }
        lemma_sorted_iff_count(flags, before, after, out1, k - 1);
    } else {
        assert forall|t: int| 0 <= t < out.len() implies (#[trigger] out[t]).index < k - 1 by {
            if out[t].index == k - 1 {
                assert(covered(flags, before, after, k - 1));
            }
        }
        assert forall|i: int| 0 <= i < k - 1 implies (covered(flags, before, after, i)
            <==> exists|t: int| 0 <= t < out.len() && (#[trigger] out[t]).index == i) by {
            assert(0 <= i < k);
        }
        lemma_sorted_iff_count(flags, before, after, out, k - 1);
    }
}

/// A strictly ordered sequence of records with indices below `k` has at most
/// `k` records.
proof fn lemma_emitted_len_le(out: Seq<Emitted>, k: int)
    requires
        0 <= k,
        forall|t: int| 0 <= t < out.len() ==> (#[trigger] out[t]).index < k,
        forall|t1: int, t2: int|
            0 <= t1 < t2 < out.len() ==> #[trigger] out[t1].index < #[trigger] out[t2].index,
    ensures
        out.len() <= k,
    decreases out.len(),
{
    if out.len() > 0 {
        let out1 = out.drop_last();
        let last = out[out.len() - 1];
        assert forall|t: int| 0 <= t < out1.len() implies (#[trigger] out1[t]).index
            < last.index as int by {
            assert(out1[t] == out[t]);
            assert(out[t].index < out[out.len() - 1].index);
        }
        assert forall|t1: int, t2: int| 0 <= t1 < t2 < out1.len() implies #[trigger] out1[t1].index
            < #[trigger] out1[t2].index by {
            assert(out1[t1] == out[t1] && out1[t2] == out[t2]);
        }
        lemma_emitted_len_le(out1, last.index as int);
    }
}

/// Scan a whole stream in print mode. `flags[i]` must hold the (possibly
/// inverted) predicate result for `lines[i]`; the result then consists of
/// exactly the lines lying in the context window of some predicate-satisfying
/// line, in stream order, each at most once, with their texts and
/// classifications.
pub fn scan_lines(lines: &Vec<String>, flags: &Vec<bool>, config: &ContextConfig) -> (out: Vec<
    Emitted,
>)
    requires
        flags@.len() == lines@.len(),
    ensures
        scan_ok(lines.deep_view(), flags@, config.before as int, config.after as int, out@),
{
    let ghost ldv = lines.deep_view();
    let ghost b = config.before as int;
    let ghost a = config.after as int;
    let mut sc = Scanner::new(config);
    let mut out: Vec<Emitted> = Vec::new();
    let n = lines.len();
    let mut k: usize = 0;
    while k < n
        invariant
            n == lines@.len(),
            flags@.len() == n,
            k <= n,
            ldv == lines.deep_view(),
            b == config.before as int,
            a == config.after as int,
            sc.wf(),
            sc@.before == b,
            sc@.after == a,
            sc@.next == k,
            scan_inv(ldv, flags@, b, a, k as int, out@, sc@.buffer, sc@.countdown),
        decreases n - k,
    {
        let text = lines[k].clone();
        let is_m = flags[k];
        let ghost old_out = out@;
        let ghost old_buf = sc@.buffer;
        let ghost old_cd = sc@.countdown;
        let mut emitted = sc.step(text, is_m);
        proof {
            assert(ldv[k as int] == lines@[k as int]@);
            lemma_step_preserves(
                ldv,
                flags@,
                b,
                a,
                k as int,
                old_out,
                old_buf,
                old_cd,
                emitted@,
                sc@.buffer,
                sc@.countdown,
            );
        }
        out.append(&mut emitted);
        k = k + 1;
    }
    out
}

/// Scan a whole stream in count mode: report how many lines lie in some
/// context window — exactly the number of records print mode would emit —
/// while retaining only the bounded look-behind buffer.
pub fn count_lines(lines: &Vec<String>, flags: &Vec<bool>, config: &ContextConfig) -> (count:
    usize)
    requires
        flags@.len() == lines@.len(),
    ensures
        count == window_count(flags@, config.before as int, config.after as int, flags@.len() as int),
{
    let ghost ldv = lines.deep_view();
    let ghost b = config.before as int;
    let ghost a = config.after as int;
    let ghost mut gout: Seq<Emitted> = Seq::empty();
    let mut sc = Scanner::new(config);
    let mut count: usize = 0;
    let n = lines.len();
    let mut k: usize = 0;
    while k < n
        invariant
            n == lines@.len(),
            flags@.len() == n,
            k <= n,
            ldv == lines.deep_view(),
            b == config.before as int,
            a == config.after as int,
            sc.wf(),
            sc@.before == b,
            sc@.after == a,
            sc@.next == k,
            scan_inv(ldv, flags@, b, a, k as int, gout, sc@.buffer, sc@.countdown),
            count == gout.len(),
        decreases n - k,
    {
        let text = lines[k].clone();
        let is_m = flags[k];
        let ghost old_out = gout;
        let ghost old_buf = sc@.buffer;
        let ghost old_cd = sc@.countdown;
        let emitted = sc.step(text, is_m);
        proof {
            assert(ldv[k as int] == lines@[k as int]@);
            lemma_step_preserves(
                ldv,
                flags@,
                b,
                a,
                k as int,
                old_out,
                old_buf,
                old_cd,
                emitted@,
                sc@.buffer,
                sc@.countdown,
            );
            gout = old_out + emitted@;
            lemma_emitted_len_le(gout, k as int + 1);
        }
        count = count + emitted.len();
        k = k + 1;
    }
    proof {
        lemma_sorted_iff_count(flags@, b, a, gout, n as int);
    }
    count
}

/// Count consistency: the integer count mode reports equals the number of
/// records print mode emits for the same stream, predicate and context
/// configuration.
pub proof fn lemma_count_consistency(
    lines: Seq<Seq<char>>,
    flags: Seq<bool>,
    before: int,
    after: int,
    out: Seq<Emitted>,
)
    requires
        flags.len() == lines.len(),
        scan_ok(lines, flags, before, after, out),
    ensures
        out.len() == window_count(flags, before, after, flags.len() as int),
{
    lemma_sorted_iff_count(flags, before, after, out, flags.len() as int);
}

/// With no context configured, a scan emits exactly the predicate-satisfying
/// lines, in stream order, all classified as matches.
pub proof fn lemma_no_context(lines: Seq<Seq<char>>, flags: Seq<bool>, out: Seq<Emitted>)
    requires
        flags.len() == lines.len(),
        scan_ok(lines, flags, 0, 0, out),
    ensures
        forall|t: int| 0 <= t < out.len() ==> (#[trigger] out[t]).matched,
        forall|i: int|
            0 <= i < lines.len() ==> (flags[i] <==> exists|t: int|
                0 <= t < out.len() && (#[trigger] out[t]).index == i),
{
    assert forall|i: int| 0 <= i < lines.len() implies (flags[i] <==> covered(
        flags,
        0,
        0,
        i,
    )) by {
        if flags[i] {
            assert(0 <= i < flags.len() && flags[i] && i - 0 <= i && i <= i + 0);
        }
        if covered(flags, 0, 0, i) {
            let j = choose|j: int| 0 <= j < flags.len() && flags[j] && j - 0 <= i && i <= j + 0;
            assert(j == i);
        }
    }
    assert forall|t: int| 0 <= t < out.len() implies (#[trigger] out[t]).matched by {
        let i = out[t].index as int;
        assert(exists|tt: int| 0 <= tt < out.len() && (#[trigger] out[tt]).index == i);
        assert(covered(flags, 0, 0, i));
        assert(flags[i]);
    }
}

/// At-most-once emission: distinct output records always carry distinct line
/// indices, whatever the context configuration.
pub proof fn lemma_at_most_once(
    lines: Seq<Seq<char>>,
    flags: Seq<bool>,
    before: int,
    after: int,
    out: Seq<Emitted>,
)
    requires
        scan_ok(lines, flags, before, after, out),
    ensures
        forall|t1: int, t2: int|
            0 <= t1 < out.len() && 0 <= t2 < out.len() && t1 != t2 ==> #[trigger] out[t1].index
                != #[trigger] out[t2].index,
{
}

/// Unflushed tail: a line inside no context window — in particular a buffered
/// before-context line not followed closely enough by any match — is never
/// emitted.
pub proof fn lemma_unflushed_tail(
    lines: Seq<Seq<char>>,
    flags: Seq<bool>,
    before: int,
    after: int,
    out: Seq<Emitted>,
    i: int,
)
    requires
        flags.len() == lines.len(),
        scan_ok(lines, flags, before, after, out),
        0 <= i < lines.len(),
        forall|j: int|
            0 <= j < flags.len() && #[trigger] flags[j] ==> !(j - before <= i && i <= j + after),
    ensures
        forall|t: int| 0 <= t < out.len() ==> (#[trigger] out[t]).index != i,
{
    assert(!covered(flags, before, after, i));
}

/// The look-behind buffer never holds more than `before` records.
pub proof fn lemma_buffer_bounded(s: Scanner)
    requires
        s.wf(),
    ensures
        s@.buffer.len() <= s@.before,
{
}

} // verus!
