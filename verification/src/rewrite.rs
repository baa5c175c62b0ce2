//! The per-file rewriting engine: stream a source file as pass-through
//! spans and hunks, substitute within each hunk, and assemble the output
//! from the review decisions.  The engine never blocks: each hunk that
//! needs review is handed out, and the decision comes back in.

use vstd::prelude::*;

use grep_matcher::{Captures, Matcher};

use crate::menu::PatchOption;
use crate::ranges::{ranges, ranges_spec, HunkRange};

verus! {

/// grep_regex's compiled matcher, carried opaquely: the library never
/// looks inside it, it only hands it to the substitution wrapper.
#[verifier::external_type_specification]
#[verifier::external_body]
pub struct ExRegexMatcher(grep_regex::RegexMatcher);

/// Relies on grep_regex's `RegexMatcher` through grep_matcher's
/// `Matcher::replace_with_captures`: every match in `haystack` is replaced
/// by `replacement` with capture groups interpolated by
/// `Captures::interpolate`, and the rest is copied through.  Nothing is
/// assumed about the result; callers compare it against the input.
#[verifier::external_body]
pub fn replace_regex(matcher: &grep_regex::RegexMatcher, replacement: &[u8], haystack: &[u8]) -> (r:
    Result<Vec<u8>, String>) {
    let mut captures = match matcher.new_captures() {
        Ok(c) => c,
        Err(e) => return Err(format!("{e}")),
    };
    let mut dest = Vec::new();
    let rv = matcher.replace_with_captures(haystack, &mut captures, &mut dest, |caps, dest| {
        caps.interpolate(|name| matcher.capture_index(name), haystack, replacement, dest);
        true
    });
    match rv {
        Ok(()) => Ok(dest),
        Err(e) => Err(format!("{e}")),
    }
}

/// One file's matches: the modification time observed at discovery (in
/// nanoseconds relative to the epoch) and the matched 0-indexed lines.
pub struct MatchInfo {
    pub modified: i128,
    pub lines: Vec<u64>,
}

impl MatchInfo {
    pub fn new(modified: i128) -> (r: Self)
        ensures
            r.modified == modified,
            r.lines@ == Seq::<u64>::empty(),
    {
        MatchInfo { modified, lines: Vec::new() }
    }
}

/// Byte equality of two slices.
pub fn bytes_eq(a: &[u8], b: &[u8]) -> (r: bool)
    ensures
        r == (a@ == b@),
{
    if a.len() != b.len() {
        return false;
    }
    let mut i: usize = 0;
    while i < a.len()
        invariant
            0 <= i <= a@.len(),
            a@.len() == b@.len(),
            forall|m: int| 0 <= m < i ==> a@[m] == b@[m],
        decreases a@.len() - i,
    {
        if a[i] != b[i] {
            return false;
        }
        i += 1;
    }
    proof {
        assert(a@ =~= b@);
    }
    true
}

/// Copy `s[a..b]` into a fresh vector.
fn copy_range(s: &[u8], a: usize, b: usize) -> (r: Vec<u8>)
    requires
        a <= b <= s@.len(),
    ensures
        r@ == s@.subrange(a as int, b as int),
{
    let mut v: Vec<u8> = Vec::new();
    v.extend_from_slice(&s[a..b]);
    proof {
        assert(v@ =~= s@.subrange(a as int, b as int));
    }
    v
}

proof fn lemma_subrange_concat(s: Seq<u8>, a: int, b: int, c: int)
    requires
        0 <= a <= b <= c <= s.len(),
    ensures
        s.subrange(a, b) + s.subrange(b, c) =~= s.subrange(a, c),
{
}

// ---------------------------------------------------------------------------
// sorting the match lines
// ---------------------------------------------------------------------------

proof fn lemma_insert_multiset(s: Seq<u64>, i: int, a: u64)
    requires
        0 <= i <= s.len(),
    ensures
        s.insert(i, a).to_multiset() =~= s.to_multiset().insert(a),
{
    broadcast use vstd::seq_lib::group_to_multiset_ensures;

    let t = s.insert(i, a);
    assert(t.remove(i) =~= s);
    assert(t[i] == a);
    assert(t.contains(a));
    assert(t.to_multiset().count(a) > 0);
    assert(t.remove(i).to_multiset() =~= t.to_multiset().remove(t[i]));
    assert(s.to_multiset() =~= t.to_multiset().remove(a));
}

/// Sort the matched line numbers ascending, keeping exactly the same
/// collection of values.
pub fn sort_u64(list: &mut Vec<u64>)
    ensures
        crate::ranges::sorted_u64(final(list)@),
        final(list)@.to_multiset() == old(list)@.to_multiset(),
        final(list)@.len() == old(list)@.len(),
{
    broadcast use vstd::seq_lib::group_to_multiset_ensures;

    let mut out: Vec<u64> = Vec::new();
    let mut i: usize = 0;
    proof {
        assert(list@.take(0) =~= Seq::<u64>::empty());
        assert(Seq::<u64>::empty().to_multiset() =~= out@.to_multiset());
    }
    while i < list.len()
        invariant
            0 <= i <= list@.len(),
            out@.len() == i,
            crate::ranges::sorted_u64(out@),
            out@.to_multiset() == list@.take(i as int).to_multiset(),
        decreases list@.len() - i,
    {
        let x = list[i];
        // find the first position whose value exceeds x
        let mut k: usize = 0;
        while k < out.len() && out[k] <= x
            invariant
                0 <= k <= out@.len(),
                forall|m: int| 0 <= m < k ==> out@[m] <= x,
            decreases out@.len() - k,
        {
            k += 1;
        }
        let ghost before = out@;
        out.insert(k, x);
        proof {
            assert(out@ == before.insert(k as int, x));
            assert(crate::ranges::sorted_u64(out@)) by {
                assert(k < before.len() ==> before[k as int] > x);
                assert forall|i2: int, j2: int| 0 <= i2 <= j2 < out@.len() implies out@[i2]
                    <= out@[j2] by {
                    assert(forall|m: int| 0 <= m < k ==> out@[m] == before[m]);
                    assert(forall|m: int| k < m < out@.len() ==> out@[m] == before[m - 1]);
                    assert(out@[k as int] == x);
                    if j2 > k {
                        assert(k <= j2 - 1 < before.len());
                        assert(before[k as int] <= before[j2 - 1]);
                    }
                }
            }
            lemma_insert_multiset(before, k as int, x);
            let tk = list@.take(i + 1);
            assert(tk.drop_last() =~= list@.take(i as int));
            assert(tk =~= list@.take(i as int).push(x));
            list@.take(i as int).to_multiset_ensures();
            assert(list@.take(i as int).push(x).to_multiset() =~= list@.take(
                i as int,
            ).to_multiset().insert(x));
            assert(tk.to_multiset() =~= list@.take(i as int).to_multiset().insert(x));
        }
        i += 1;
    }
    proof {
        assert(list@.take(list@.len() as int) =~= list@);
    }
    *list = out;
}

// ---------------------------------------------------------------------------
// splitting the source into line spans
// ---------------------------------------------------------------------------

/// The spans are exactly the text's lines: they tile the text
/// contiguously, each span holds no newline before its last byte, and
/// each span ends just after a newline — except the last, which may
/// instead end with the text.
pub open spec fn spans_wf(s: Seq<u8>, sp: Seq<(usize, usize)>) -> bool {
    &&& (s.len() == 0 <==> sp.len() == 0)
    &&& forall|i: int| 0 <= i < sp.len() ==> (#[trigger] sp[i]).0 < sp[i].1 <= s.len()
    &&& (sp.len() > 0 ==> sp[0].0 == 0 && sp[sp.len() - 1].1 == s.len())
    &&& forall|i: int| 0 <= i && i + 1 < sp.len() ==> (#[trigger] sp[i]).1 == sp[i + 1].0
    &&& forall|i: int, m: int|
        0 <= i < sp.len() && (#[trigger] sp[i]).0 <= m < sp[i].1 - 1 ==> #[trigger] s[m] != 10
    &&& forall|i: int|
        0 <= i < sp.len() ==> (s[(#[trigger] sp[i]).1 - 1] == 10 || sp[i].1 == s.len())
}

/// Split the text into line spans, each line ending with its `\n` except
/// possibly the last.
pub fn split_lines(s: &[u8]) -> (r: Vec<(usize, usize)>)
    ensures
        spans_wf(s@, r@),
{
    let mut r: Vec<(usize, usize)> = Vec::new();
    let mut pos: usize = 0;
    while pos < s.len()
        invariant
            0 <= pos <= s@.len(),
            pos == 0 <==> r@.len() == 0,
            forall|i: int| 0 <= i < r@.len() ==> (#[trigger] r@[i]).0 < r@[i].1 <= pos,
            r@.len() > 0 ==> r@[0].0 == 0 && r@[r@.len() - 1].1 == pos,
            forall|i: int| 0 <= i && i + 1 < r@.len() ==> (#[trigger] r@[i]).1 == r@[i + 1].0,
            forall|i: int, m: int|
                0 <= i < r@.len() && (#[trigger] r@[i]).0 <= m < r@[i].1 - 1 ==> #[trigger] s@[m]
                    != 10,
            forall|i: int|
                0 <= i < r@.len() ==> (s@[(#[trigger] r@[i]).1 - 1] == 10 || r@[i].1
                    == s@.len()),
        decreases s@.len() - pos,
    {
        let rest = &s[pos..s.len()];
        proof {
            assert(rest@ =~= s@.skip(pos as int));
            crate::parse::lemma_find_byte(rest@, 10);
        }
        let k = crate::parse::find_byte(rest, 10);
        let end = if k == rest.len() {
            s.len()
        } else {
            pos + k + 1
        };
        proof {
            // no newline strictly inside the span, and the span ends just
            // after one unless it runs to the end of the text
            assert forall|m: int| pos as int <= m < end - 1 implies s@[m] != 10 by {
                assert(s@[m] == rest@[m - pos]);
                assert(m - pos < k);
            }
            if k < rest@.len() {
                assert(s@[end - 1] == rest@[k as int]);
            }
        }
        r.push((pos, end));
        pos = end;
    }
    r
}

// ---------------------------------------------------------------------------
// the rewriting engine
// ---------------------------------------------------------------------------

/// What the engine hands out per step.
pub enum Step {
    /// A hunk whose substitution differs from the original: it must be
    /// reviewed before anything more is written.
    Review {
        original: Vec<u8>,
        replaced: Vec<u8>,
        start_line: u64,
        index: u64,
        total: u64,
    },
    /// The substitution capability failed; the run cannot continue.
    Failed(String),
    /// No hunks are left (or a stop was requested).
    Done,
}

/// The answer to a decision: either go on, or the replacement wipes the
/// whole hunk and an explicit confirmation is needed first.
pub enum Resolution {
    Continue,
    NeedsBlankConfirm,
}

/// The engine for one file.
pub struct FileRewriter<'a> {
    pub matcher: &'a grep_regex::RegexMatcher,
    pub replace_with: &'a [u8],
    pub src: &'a [u8],
    pub spans: Vec<(usize, usize)>,
    pub ranges: Vec<HunkRange>,
    /// index of the next line of `src` not yet consumed
    pub cur: usize,
    /// index of the next hunk range
    pub hunk_idx: usize,
    pub out: Vec<u8>,
    pub has_dest: bool,
    pub made_change: bool,
    pub stopped: bool,
    /// byte span of a hunk handed out for review
    pub pending: Option<(usize, usize)>,
    /// a blank replacement awaiting explicit confirmation
    pub blank_new: Option<Vec<u8>>,
}

impl<'a> FileRewriter<'a> {
    /// The byte offset of the first unconsumed line.
    pub open spec fn byte_pos(self) -> int {
        if self.cur < self.spans@.len() {
            self.spans@[self.cur as int].0 as int
        } else {
            self.src@.len() as int
        }
    }

    pub open spec fn wf(self) -> bool {
        &&& spans_wf(self.src@, self.spans@)
        &&& self.cur <= self.spans@.len()
        &&& self.hunk_idx <= self.ranges@.len()
        &&& (self.pending matches Some((p1, p2)) ==> p1 <= p2 <= self.src@.len() && p2
            == self.byte_pos())
        &&& (self.blank_new is Some ==> self.pending is Some)
        &&& (!self.has_dest ==> self.out@.len() == 0 && !self.made_change)
    }

    /// Everything that one step must not touch.
    pub open spec fn same_config(self, other: Self) -> bool {
        &&& self.matcher == other.matcher
        &&& self.replace_with == other.replace_with
        &&& self.src == other.src
        &&& self.spans == other.spans
        &&& self.ranges == other.ranges
        &&& self.has_dest == other.has_dest
    }

    /// Set up the engine: sort the match lines, merge them into padded
    /// ranges, and split the source into lines.
    pub fn new(
        matcher: &'a grep_regex::RegexMatcher,
        replace_with: &'a [u8],
        src: &'a [u8],
        line_nums: &mut Vec<u64>,
        padding: u64,
        has_dest: bool,
    ) -> (r: FileRewriter<'a>)
        ensures
            r.wf(),
            crate::ranges::sorted_u64(final(line_nums)@),
            final(line_nums)@.to_multiset() == old(line_nums)@.to_multiset(),
            r.ranges@ == ranges_spec(final(line_nums)@, padding),
            r.out@.len() == 0,
            r.cur == 0,
            r.hunk_idx == 0,
            !r.made_change,
            !r.stopped,
            r.pending is None,
            r.blank_new is None,
            r.has_dest == has_dest,
            r.matcher == matcher,
            r.replace_with == replace_with,
            r.src == src,
    {
        sort_u64(line_nums);
        let hunk_ranges = ranges(line_nums.as_slice(), padding);
        let spans = split_lines(src);
        FileRewriter {
            matcher,
            replace_with,
            src,
            spans,
            ranges: hunk_ranges,
            cur: 0,
            hunk_idx: 0,
            out: Vec::new(),
            has_dest,
            made_change: false,
            stopped: false,
            pending: None,
            blank_new: None,
        }
    }

    /// Copy pass-through lines to the output until the hunk opens or the
    /// file ends.
    #[verifier::rlimit(100)]
    fn copy_until(&mut self, range: HunkRange)
        requires
            old(self).wf(),
            old(self).pending is None,
            old(self).blank_new is None,
        ensures
            final(self).wf(),
            old(self).same_config(*final(self)),
            final(self).pending is None,
            final(self).blank_new is None,
            final(self).made_change == old(self).made_change,
            final(self).stopped == old(self).stopped,
            final(self).hunk_idx == old(self).hunk_idx,
            old(self).cur <= final(self).cur,
            old(self).byte_pos() <= final(self).byte_pos() <= final(self).src@.len(),
            old(self).has_dest ==> final(self).out@ == old(self).out@ + old(self).src@.subrange(
                old(self).byte_pos(),
                final(self).byte_pos(),
            ),
            !old(self).has_dest ==> final(self).out@ == old(self).out@,
    {
        let ghost base_out = self.out@;
        let ghost start_byte = self.byte_pos();
        proof {
            assert(self.src@.subrange(start_byte, start_byte) =~= Seq::<u8>::empty());
            assert(base_out + self.src@.subrange(start_byte, start_byte) =~= base_out);
        }
        while self.cur < self.spans.len() && !(range.start <= self.cur as u64 && self.cur as u64
            <= range.end)
            invariant
                self.wf(),
                self.pending is None,
                self.blank_new is None,
                old(self).same_config(*self),
                self.made_change == old(self).made_change,
                self.stopped == old(self).stopped,
                self.hunk_idx == old(self).hunk_idx,
                old(self).cur <= self.cur,
                0 <= start_byte <= self.byte_pos() <= self.src@.len(),
                self.has_dest ==> self.out@ == base_out + self.src@.subrange(
                    start_byte,
                    self.byte_pos(),
                ),
                !self.has_dest ==> self.out@ == base_out,
            decreases self.spans@.len() - self.cur,
        {
            let span = self.spans[self.cur];
            let ghost bp = self.byte_pos();
            if self.has_dest {
                let piece = &self.src[span.0..span.1];
                self.out.extend_from_slice(piece);
            }
            self.cur = self.cur + 1;
            proof {
                assert(span.1 as int == self.byte_pos()) by {
                    if self.cur < self.spans@.len() {
                        assert(self.spans@[self.cur - 1].1 == self.spans@[self.cur as int].0);
                    } else {
                        assert(self.spans@[self.spans@.len() - 1].1 == self.src@.len());
                    }
                }
                assert(bp == span.0 as int);
                if self.has_dest {
                    lemma_subrange_concat(self.src@, start_byte, bp, self.byte_pos());
                    assert(self.out@ =~= base_out + self.src@.subrange(
                        start_byte,
                        self.byte_pos(),
                    ));
                }
            }
        }
    }

    /// Advance past the hunk's lines without writing them.
    fn skip_hunk(&mut self, range: HunkRange)
        requires
            old(self).wf(),
            old(self).pending is None,
        ensures
            final(self).wf(),
            old(self).same_config(*final(self)),
            final(self).pending is None,
            final(self).blank_new == old(self).blank_new,
            final(self).made_change == old(self).made_change,
            final(self).stopped == old(self).stopped,
            final(self).hunk_idx == old(self).hunk_idx,
            final(self).out == old(self).out,
            old(self).cur <= final(self).cur,
            old(self).byte_pos() <= final(self).byte_pos() <= final(self).src@.len(),
    {
        while self.cur < self.spans.len() && range.start <= self.cur as u64 && self.cur as u64
            <= range.end
            invariant
                self.wf(),
                old(self).same_config(*self),
                self.pending is None,
                self.blank_new == old(self).blank_new,
                self.made_change == old(self).made_change,
                self.stopped == old(self).stopped,
                self.hunk_idx == old(self).hunk_idx,
                self.out == old(self).out,
                old(self).cur <= self.cur,
                old(self).byte_pos() <= self.byte_pos() <= self.src@.len(),
            decreases self.spans@.len() - self.cur,
        {
            let ghost bp = self.byte_pos();
            proof {
                if self.cur + 1 < self.spans@.len() {
                    assert(self.spans@[self.cur as int].1 == self.spans@[self.cur + 1].0);
                } else if self.cur + 1 == self.spans@.len() {
                    assert(self.spans@[self.spans@.len() - 1].1 == self.src@.len());
                }
            }
            self.cur = self.cur + 1;
            proof {
                assert(bp <= self.byte_pos());
            }
        }
    }

    /// Handle the next hunk range: copy up to it, collect it, run the
    /// substitution, and either write it through unchanged or hand it out.
    #[verifier::rlimit(100)]
    fn process_hunk(&mut self) -> (r: Option<Step>)
        requires
            old(self).wf(),
            old(self).pending is None,
            old(self).blank_new is None,
            old(self).hunk_idx < old(self).ranges@.len(),
        ensures
            final(self).wf(),
            old(self).same_config(*final(self)),
            final(self).made_change == old(self).made_change,
            final(self).stopped == old(self).stopped,
            final(self).blank_new is None,
            old(self).byte_pos() <= final(self).byte_pos() <= final(self).src@.len(),
            !old(self).has_dest ==> final(self).out@ == old(self).out@,
            r is None ==> {
                &&& final(self).pending is None
                &&& final(self).hunk_idx == old(self).hunk_idx + 1
                &&& (old(self).has_dest ==> final(self).out@ == old(self).out@ + old(
                    self,
                ).src@.subrange(old(self).byte_pos(), final(self).byte_pos()))
            },
            r matches Some(step) ==> !(step is Done),
            r matches Some(Step::Failed(_)) ==> final(self).pending is None,
            r matches Some(Step::Review {
                original,
                replaced,
                start_line,
                index,
                total,
            }) ==> {
                &&& original@ != replaced@
                &&& (final(self).pending matches Some((p1, p2)) && original@ == old(
                    self,
                ).src@.subrange(p1 as int, p2 as int))
                &&& (old(self).has_dest ==> final(self).out@ == old(self).out@ + old(
                    self,
                ).src@.subrange(old(self).byte_pos(), (final(self).pending->0).0 as int))
                &&& total == old(self).ranges@.len()
                &&& index < total
                &&& final(self).hunk_idx == old(self).hunk_idx + 1
                &&& old(self).byte_pos() <= (final(self).pending->0).0 as int <= final(self).byte_pos()
                &&& start_line <= final(self).spans@.len()
                &&& (start_line < final(self).spans@.len() ==> (final(self).pending->0).0
                    == final(self).spans@[start_line as int].0)
                &&& (start_line == final(self).spans@.len() ==> (final(self).pending->0).0
                    == final(self).src@.len())
            },
    {
        let range = self.ranges[self.hunk_idx];
        let ghost bp0 = self.byte_pos();
        self.copy_until(range);
        let hunk_start_line = self.cur as u64;
        let p1 = if self.cur < self.spans.len() {
            self.spans[self.cur].0
        } else {
            self.src.len()
        };
        proof {
            assert(p1 as int == self.byte_pos());
        }
        self.skip_hunk(range);
        let p2 = if self.cur < self.spans.len() {
            self.spans[self.cur].0
        } else {
            self.src.len()
        };
        proof {
            assert(p2 as int == self.byte_pos());
        }
        let hunk = copy_range(self.src, p1, p2);
        let replaced = match replace_regex(self.matcher, self.replace_with, hunk.as_slice()) {
            Ok(v) => v,
            Err(e) => {
                return Some(Step::Failed(e));
            },
        };
        let total = self.ranges.len();
        proof {
            assert(self.hunk_idx < total);
        }
        self.hunk_idx = self.hunk_idx + 1;
        if bytes_eq(hunk.as_slice(), replaced.as_slice()) {
            // nothing changed in this hunk: write it through, no prompt
            if self.has_dest {
                self.out.extend_from_slice(hunk.as_slice());
                proof {
                    lemma_subrange_concat(self.src@, bp0, p1 as int, p2 as int);
                    assert(self.out@ =~= old(self).out@ + self.src@.subrange(
                        bp0,
                        self.byte_pos(),
                    ));
                }
            }
            None
        } else {
            let index = self.hunk_idx - 1;
            self.pending = Some((p1, p2));
            Some(
                Step::Review {
                    original: hunk,
                    replaced,
                    start_line: hunk_start_line,
                    index: index as u64,
                    total: total as u64,
                },
            )
        }
    }

    /// Advance to the next hunk that needs review.  Pass-through lines and
    /// hunks whose substitution is byte-identical are written straight to
    /// the output; a hunk is handed out only when its substitution
    /// actually differs.
    #[verifier::rlimit(100)]
    pub fn next_hunk(&mut self) -> (r: Step)
        requires
            old(self).wf(),
            old(self).pending is None,
            old(self).blank_new is None,
        ensures
            final(self).wf(),
            old(self).same_config(*final(self)),
            final(self).made_change == old(self).made_change,
            final(self).stopped == old(self).stopped,
            final(self).blank_new is None,
            old(self).stopped ==> *final(self) == *old(self) && r is Done,
            r is Done ==> final(self).pending is None,
            r is Done && !old(self).stopped ==> final(self).hunk_idx == final(self).ranges@.len(),
            r is Review ==> final(self).hunk_idx > old(self).hunk_idx,
            r is Failed ==> final(self).pending is None,
            r is Failed ==> old(self).hunk_idx < old(self).ranges@.len(),
            !old(self).stopped && old(self).hunk_idx == old(self).ranges@.len() ==> r is Done,
            r is Done && old(self).has_dest ==> final(self).out@ == old(self).out@ + old(
                self,
            ).src@.subrange(old(self).byte_pos(), final(self).byte_pos()),
            !old(self).has_dest ==> final(self).out@ == old(self).out@,
            r matches Step::Review { original, replaced, start_line, index, total } ==> {
                &&& original@ != replaced@
                &&& (final(self).pending matches Some((p1, p2)) && original@ == old(
                    self,
                ).src@.subrange(p1 as int, p2 as int))
                &&& (old(self).has_dest ==> final(self).out@ == old(self).out@ + old(
                    self,
                ).src@.subrange(old(self).byte_pos(), (final(self).pending->0).0 as int))
                &&& total == old(self).ranges@.len()
                &&& index < total
                &&& start_line <= final(self).spans@.len()
                &&& (start_line < final(self).spans@.len() ==> (final(self).pending->0).0
                    == final(self).spans@[start_line as int].0)
                &&& (start_line == final(self).spans@.len() ==> (final(self).pending->0).0
                    == final(self).src@.len())
            },
    {
        if self.stopped {
            return Step::Done;
        }
        let ghost base_out = self.out@;
        let ghost start_byte = self.byte_pos();
        proof {
            assert(self.src@.subrange(start_byte, start_byte) =~= Seq::<u8>::empty());
            assert(base_out + self.src@.subrange(start_byte, start_byte) =~= base_out);
        }
        while self.hunk_idx < self.ranges.len()
            invariant
                self.wf(),
                self.pending is None,
                self.blank_new is None,
                old(self).same_config(*self),
                self.made_change == old(self).made_change,
                self.stopped == old(self).stopped,
                !self.stopped,
                old(self).hunk_idx <= self.hunk_idx,
                base_out == old(self).out@,
                start_byte == old(self).byte_pos(),
                0 <= start_byte <= self.byte_pos() <= self.src@.len(),
                self.has_dest ==> self.out@ == base_out + self.src@.subrange(
                    start_byte,
                    self.byte_pos(),
                ),
                !self.has_dest ==> self.out@ == base_out,
            decreases self.ranges@.len() - self.hunk_idx,
        {
            let ghost bp0 = self.byte_pos();
            let step = self.process_hunk();
            proof {
                if self.has_dest && step is None {
                    lemma_subrange_concat(self.src@, start_byte, bp0, self.byte_pos());
                    assert(self.out@ =~= base_out + self.src@.subrange(
                        start_byte,
                        self.byte_pos(),
                    ));
                }
            }
            match step {
                None => {},
                Some(s) => {
                    proof {
                        if self.has_dest && (s matches Step::Review { .. }) {
                            lemma_subrange_concat(
                                self.src@,
                                start_byte,
                                bp0,
                                (self.pending->0).0 as int,
                            );
                            assert(self.out@ =~= base_out + self.src@.subrange(
                                start_byte,
                                (self.pending->0).0 as int,
                            ));
                        }
                    }
                    return s;
                },
            }
        }
        Step::Done
    }

    /// Apply a review decision for the pending hunk.  A blank replacement
    /// is not written yet: it first asks for confirmation.
    pub fn resolve(&mut self, outcome: PatchOption) -> (r: Resolution)
        requires
            old(self).wf(),
            old(self).pending is Some,
            old(self).blank_new is None,
        ensures
            final(self).wf(),
            old(self).same_config(*final(self)),
            final(self).cur == old(self).cur,
            final(self).hunk_idx == old(self).hunk_idx,
            outcome matches PatchOption::WriteNew(x) ==> (if crate::whitespace::is_blank_spec(x@) {
                &&& r is NeedsBlankConfirm
                &&& final(self).pending == old(self).pending
                &&& (final(self).blank_new matches Some(y) && y@ == x@)
                &&& final(self).out@ == old(self).out@
                &&& final(self).made_change == old(self).made_change
                &&& final(self).stopped == old(self).stopped
            } else {
                &&& r is Continue
                &&& final(self).pending is None
                &&& final(self).blank_new is None
                &&& (old(self).has_dest ==> final(self).out@ == old(self).out@ + x@
                    && final(self).made_change)
                &&& (!old(self).has_dest ==> final(self).out@.len() == 0 && !final(self).made_change)
                &&& final(self).stopped == old(self).stopped
            }),
            outcome is WriteOriginal ==> {
                &&& r is Continue
                &&& final(self).pending is None
                &&& final(self).blank_new is None
                &&& (old(self).has_dest ==> final(self).out@ == old(self).out@ + old(self).src@.subrange((old(self).pending->0).0 as int, (old(self).pending->0).1 as int))
                &&& final(self).made_change == old(self).made_change
                &&& final(self).stopped == old(self).stopped
            },
            outcome is Quit ==> {
                &&& r is Continue
                &&& final(self).pending is None
                &&& final(self).blank_new is None
                &&& (old(self).has_dest ==> final(self).out@ == old(self).out@ + old(self).src@.subrange((old(self).pending->0).0 as int, (old(self).pending->0).1 as int))
                &&& final(self).made_change == old(self).made_change
                &&& final(self).stopped
            },
    {
        match outcome {
            PatchOption::WriteNew(x) => {
                if crate::whitespace::is_blank(x.as_slice()) {
                    self.blank_new = Some(x);
                    Resolution::NeedsBlankConfirm
                } else {
                    if self.has_dest {
                        self.out.extend_from_slice(x.as_slice());
                        self.made_change = true;
                    }
                    self.pending = None;
                    Resolution::Continue
                }
            },
            PatchOption::WriteOriginal => {
                self.write_pending_original();
                self.pending = None;
                Resolution::Continue
            },
            PatchOption::Quit => {
                self.write_pending_original();
                self.pending = None;
                self.stopped = true;
                Resolution::Continue
            },
        }
    }

    /// Answer the confirmation for a blank replacement: write it if
    /// confirmed; otherwise keep the original hunk and stop the run, as
    /// declining does.
    pub fn confirm_blank(&mut self, proceed: bool)
        requires
            old(self).wf(),
            old(self).pending is Some,
            old(self).blank_new is Some,
        ensures
            final(self).wf(),
            old(self).same_config(*final(self)),
            final(self).cur == old(self).cur,
            final(self).hunk_idx == old(self).hunk_idx,
            final(self).pending is None,
            final(self).blank_new is None,
            proceed ==> ((old(self).has_dest ==> final(self).out@ == old(self).out@ + old(self).blank_new->0@ && final(self).made_change) && final(self).stopped == old(self).stopped),
            !proceed ==> ((old(self).has_dest ==> final(self).out@ == old(self).out@ + old(self).src@.subrange((old(self).pending->0).0 as int, (old(self).pending->0).1 as int)) && final(self).made_change == old(self).made_change && final(self).stopped),
            !old(self).has_dest ==> final(self).out@.len() == 0 && !final(self).made_change,
    {
        let x = self.blank_new.take();
        match x {
            Some(x) => {
                if proceed {
                    if self.has_dest {
                        self.out.extend_from_slice(x.as_slice());
                        self.made_change = true;
                    }
                    self.pending = None;
                } else {
                    self.write_pending_original();
                    self.pending = None;
                    self.stopped = true;
                }
            },
            None => {
                proof {
                    assert(false);
                }
            },
        }
    }

    /// Write the pending hunk's original bytes through.
    fn write_pending_original(&mut self)
        requires
            old(self).wf(),
            old(self).pending is Some,
        ensures
            final(self).wf(),
            old(self).same_config(*final(self)),
            final(self).cur == old(self).cur,
            final(self).hunk_idx == old(self).hunk_idx,
            final(self).pending == old(self).pending,
            final(self).blank_new == old(self).blank_new,
            final(self).made_change == old(self).made_change,
            final(self).stopped == old(self).stopped,
            old(self).has_dest ==> final(self).out@ == old(self).out@ + old(self).src@.subrange(
                (old(self).pending->0).0 as int,
                (old(self).pending->0).1 as int,
            ),
            !old(self).has_dest ==> final(self).out@ == old(self).out@,
    {
        if self.has_dest {
            let (p1, p2) = match self.pending {
                Some(p) => p,
                None => {
                    proof {
                        assert(false);
                    }
                    (0, 0)
                },
            };
            let piece = &self.src[p1..p2];
            self.out.extend_from_slice(piece);
            proof {
                assert(final(self).out@ =~= old(self).out@ + old(self).src@.subrange(
                    p1 as int,
                    p2 as int,
                ));
            }
        }
    }

    /// Copy the unread remainder through and report whether the file
    /// should be replaced and whether the run continues to the next file.
    pub fn finish(&mut self) -> (r: (bool, bool))
        requires
            old(self).wf(),
            old(self).pending is None,
            old(self).blank_new is None,
        ensures
            final(self).wf(),
            old(self).same_config(*final(self)),
            r.0 == old(self).made_change,
            r.1 == !old(self).stopped,
            old(self).made_change ==> final(self).out@ == old(self).out@ + old(self).src@.subrange(old(self).byte_pos(), old(self).src@.len() as int),
            !old(self).made_change ==> final(self).out@ == old(self).out@,
    {
        let write_file = self.made_change;
        let cont = !self.stopped;
        if self.made_change {
            let p = if self.cur < self.spans.len() {
                self.spans[self.cur].0
            } else {
                self.src.len()
            };
            let piece = &self.src[p..self.src.len()];
            self.out.extend_from_slice(piece);
            self.cur = self.spans.len();
            proof {
                assert(final(self).out@ =~= old(self).out@ + old(self).src@.subrange(
                    old(self).byte_pos(),
                    old(self).src@.len() as int,
                ));
            }
        }
        (write_file, cont)
    }
}

} // verus!
