//! Merging sorted match line numbers into padded, disjoint hunk ranges.

use vstd::prelude::*;

verus! {

/// An inclusive `[start, end]` interval of 0-indexed line numbers.
#[derive(Clone, Copy, Debug, PartialEq, Eq, Structural)]
pub struct HunkRange {
    pub start: u64,
    pub end: u64,
}

/// The lower bound of the interval around `x`, padded by `padding`,
/// saturating at 0.
pub open spec fn padded_start(x: u64, padding: u64) -> u64 {
    if x >= padding {
        (x - padding) as u64
    } else {
        0u64
    }
}

/// The upper bound of the interval around `x`, padded by `padding`,
/// saturating at `u64::MAX`.
pub open spec fn padded_end(x: u64, padding: u64) -> u64 {
    if x + padding <= u64::MAX {
        (x + padding) as u64
    } else {
        u64::MAX
    }
}

/// One merge step: fold `x` into the ranges accumulated so far.
pub open spec fn merge_step(acc: Seq<HunkRange>, x: u64, padding: u64) -> Seq<HunkRange> {
    let lo = padded_start(x, padding);
    let hi = padded_end(x, padding);
    if acc.len() == 0 {
        seq![HunkRange { start: lo, end: hi }]
    } else {
        let last = acc.last();
        if last.start <= lo && lo <= last.end {
            if last.end < hi {
                acc.update(acc.len() - 1, HunkRange { start: last.start, end: hi })
            } else {
                acc
            }
        } else {
            acc.push(HunkRange { start: lo, end: hi })
        }
    }
}

/// The ranges produced from `list` with the given padding: each value is
/// padded on both sides (saturating), and an interval whose padded start
/// falls inside the currently open range extends it instead of opening a
/// new one.
pub open spec fn ranges_spec(list: Seq<u64>, padding: u64) -> Seq<HunkRange>
    decreases list.len(),
{
    if list.len() == 0 {
        Seq::empty()
    } else {
        merge_step(ranges_spec(list.drop_last(), padding), list.last(), padding)
    }
}

pub open spec fn sorted_u64(list: Seq<u64>) -> bool {
    forall|i: int, j: int| 0 <= i <= j < list.len() ==> list[i] <= list[j]
}

/// Well-formed output: each range is non-empty and consecutive ranges are
/// strictly separated, so no two output ranges overlap or even share a line.
pub open spec fn ranges_wf(rs: Seq<HunkRange>) -> bool {
    &&& forall|i: int| 0 <= i < rs.len() ==> rs[i].start <= rs[i].end
    &&& forall|i: int| 0 <= i && i + 1 < rs.len() ==> rs[i].end < rs[i + 1].start
}

pub open spec fn covered(rs: Seq<HunkRange>, x: u64) -> bool {
    exists|i: int| 0 <= i < rs.len() && (#[trigger] rs[i]).start <= x <= rs[i].end
}

/// Range `i` is anchored: its start is the padded start of one of the
/// inputs it covers.
pub open spec fn anchored(list: Seq<u64>, padding: u64, rs: Seq<HunkRange>, i: int) -> bool {
    exists|j: int|
        0 <= j < list.len() && rs[i].start == padded_start(#[trigger] list[j], padding)
            && rs[i].start <= list[j] <= rs[i].end
}

/// Range `i` could not have merged with its predecessor: one of its own
/// inputs has a padded interval that begins strictly after the
/// predecessor ends.
pub open spec fn no_spurious_merge(
    list: Seq<u64>,
    padding: u64,
    rs: Seq<HunkRange>,
    i: int,
) -> bool {
    exists|j: int|
        0 <= j < list.len() && rs[i].start <= #[trigger] list[j] <= rs[i].end && padded_start(
            list[j],
            padding,
        ) > rs[i - 1].end
}

/// Law: for sorted input and any padding, the output ranges are sorted and
/// pairwise disjoint (they never touch); every input value lies in some
/// output range, and in exactly one by disjointness; and the merging is
/// minimal: every range's start is the padded start of one of the inputs
/// it covers, so each range after the first is opened by an input whose
/// padded interval begins strictly after the previous range ends — the
/// two could not have been merged.  (An input extends the open range
/// exactly when its padded start falls at or before that range's end:
/// that is `merge_step`, which `ranges_spec` folds.)
pub proof fn lemma_ranges_properties(list: Seq<u64>, padding: u64)
    requires
        sorted_u64(list),
    ensures
        ranges_wf(ranges_spec(list, padding)),
        forall|j: int|
            0 <= j < list.len() ==> covered(ranges_spec(list, padding), list[j]),
        forall|i: int|
            0 <= i < ranges_spec(list, padding).len() ==> anchored(
                list,
                padding,
                ranges_spec(list, padding),
                i,
            ),
        forall|i: int|
            1 <= i < ranges_spec(list, padding).len() ==> no_spurious_merge(
                list,
                padding,
                ranges_spec(list, padding),
                i,
            ),
    decreases list.len(),
{
    if list.len() > 0 {
        let prefix = list.drop_last();
        let x = list.last();
        let lo = padded_start(x, padding);
        let hi = padded_end(x, padding);
        assert(sorted_u64(prefix)) by {
            assert(forall|i: int, j: int|
                0 <= i <= j < prefix.len() ==> prefix[i] == list[i] && prefix[j] == list[j]);
        }
        lemma_ranges_properties(prefix, padding);
        let prev = ranges_spec(prefix, padding);
        let rs = ranges_spec(list, padding);
        assert(rs == merge_step(prev, x, padding));
        if prev.len() == 0 {
            assert(rs =~= seq![HunkRange { start: lo, end: hi }]);
            assert(prefix.len() == 0) by {
                if prefix.len() > 0 {
                    assert(covered(prev, prefix[0]));
                }
            }
            assert(lo <= x <= hi);
            assert(covered(rs, x)) by {
                assert(rs[0].start <= x <= rs[0].end);
            }
            assert forall|i: int| 0 <= i < rs.len() implies anchored(list, padding, rs, i) by {
                assert(rs[i].start == padded_start(list[list.len() - 1], padding));
                assert(rs[i].start <= list[list.len() - 1] <= rs[i].end);
            }
        } else {
            let last = prev.last();
            // the previous last range starts at the padded start of some
            // earlier, no larger value, so it starts at or before `lo`
            let li = prev.len() - 1;
            assert(anchored(prefix, padding, prev, li));
            let j = choose|j: int|
                0 <= j < prefix.len() && prev[li].start == padded_start(
                    #[trigger] prefix[j],
                    padding,
                ) && prev[li].start <= prefix[j] <= prev[li].end;
            assert(prefix[j] <= x);
            assert(last.start <= lo);
            if lo <= last.end {
                if last.end < hi {
                    let updated = HunkRange { start: last.start, end: hi };
                    assert(rs =~= prev.update(prev.len() - 1, updated));
                    assert(ranges_wf(rs)) by {
                        assert forall|i: int| 0 <= i < rs.len() implies (#[trigger] rs[i]).start
                            <= rs[i].end by {
                            if i < rs.len() - 1 {
                                assert(rs[i] == prev[i]);
                            } else {
                                assert(rs[i] == updated);
                                assert(updated.start <= last.end < hi);
                            }
                        }
                        assert forall|i: int| 0 <= i && i + 1 < rs.len() implies (#[trigger] rs[i]).end
                            < rs[i + 1].start by {
                            assert(rs[i] == prev[i]);
                            if i + 1 < rs.len() - 1 {
                                assert(rs[i + 1] == prev[i + 1]);
                            } else {
                                assert(rs[i + 1] == updated);
                                assert(prev[i].end < prev[i + 1].start == updated.start);
                            }
                        }
                    }
                    assert(forall|k: int| 0 <= k < prefix.len() ==> covered(rs, prefix[k])) by {
                        assert(forall|k: int| 0 <= k < prefix.len() ==> covered(prev, prefix[k]));
                        assert(forall|k: int| 0 <= k < prefix.len() ==> #[trigger] covered(
                            rs,
                            prefix[k],
                        )) by {
                            assert forall|k: int| 0 <= k < prefix.len() implies #[trigger] covered(
                                rs,
                                prefix[k],
                            ) by {
                                let w = choose|i: int|
                                    0 <= i < prev.len() && (#[trigger] prev[i]).start
                                        <= prefix[k] <= prev[i].end;
                                if w == prev.len() - 1 {
                                    assert(rs[w].start <= prefix[k] <= rs[w].end);
                                } else {
                                    assert(rs[w] == prev[w]);
                                }
                            }
                        }
                    }
                    assert(covered(rs, x)) by {
                        let w = rs.len() - 1;
                        assert(rs[w].start <= lo <= x <= hi == rs[w].end);
                    }
                    assert forall|i: int| 0 <= i < rs.len() implies anchored(
                        list,
                        padding,
                        rs,
                        i,
                    ) by {
                        assert(anchored(prefix, padding, prev, i));
                        let jw = choose|jj: int|
                            0 <= jj < prefix.len() && prev[i].start == padded_start(
                                #[trigger] prefix[jj],
                                padding,
                            ) && prev[i].start <= prefix[jj] <= prev[i].end;
                        assert(list[jw] == prefix[jw]);
                        if i < rs.len() - 1 {
                            assert(rs[i] == prev[i]);
                        } else {
                            assert(rs[i].start == prev[i].start);
                            assert(prev[i].end <= rs[i].end);
                        }
                        assert(rs[i].start == padded_start(list[jw], padding));
                        assert(rs[i].start <= list[jw] <= rs[i].end);
                    }
                } else {
                    assert(rs =~= prev);
                    assert(covered(rs, x)) by {
                        let w = rs.len() - 1;
                        assert(rs[w].start <= lo <= x <= hi <= rs[w].end);
                    }
                    assert(forall|k: int| 0 <= k < prefix.len() ==> list[k] == prefix[k]);
                    assert forall|i: int| 0 <= i < rs.len() implies anchored(
                        list,
                        padding,
                        rs,
                        i,
                    ) by {
                        assert(anchored(prefix, padding, prev, i));
                        let jw = choose|jj: int|
                            0 <= jj < prefix.len() && prev[i].start == padded_start(
                                #[trigger] prefix[jj],
                                padding,
                            ) && prev[i].start <= prefix[jj] <= prev[i].end;
                        assert(rs[i] == prev[i]);
                        assert(list[jw] == prefix[jw]);
                    }
                }
            } else {
                assert(rs =~= prev.push(HunkRange { start: lo, end: hi }));
                assert(ranges_wf(rs)) by {
                    assert(last.end < lo);
                    assert(lo <= x <= hi);
                    assert forall|i: int| 0 <= i < rs.len() implies (#[trigger] rs[i]).start
                        <= rs[i].end by {
                        if i < rs.len() - 1 {
                            assert(rs[i] == prev[i]);
                        }
                    }
                    assert forall|i: int| 0 <= i && i + 1 < rs.len() implies (#[trigger] rs[i]).end
                        < rs[i + 1].start by {
                        assert(rs[i] == prev[i]);
                        if i + 1 < rs.len() - 1 {
                            assert(rs[i + 1] == prev[i + 1]);
                        }
                    }
                }
                assert(forall|k: int| 0 <= k < prefix.len() ==> covered(rs, prefix[k])) by {
                    assert forall|k: int| 0 <= k < prefix.len() implies #[trigger] covered(
                        rs,
                        prefix[k],
                    ) by {
                        let w = choose|i: int|
                            0 <= i < prev.len() && (#[trigger] prev[i]).start <= prefix[k]
                                <= prev[i].end;
                        assert(rs[w] == prev[w]);
                    }
                }
                assert(covered(rs, x)) by {
                    let w = rs.len() - 1;
                    assert(rs[w].start <= x <= rs[w].end);
                }
                assert forall|i: int| 0 <= i < rs.len() implies anchored(list, padding, rs, i) by {
                    if i < rs.len() - 1 {
                        assert(anchored(prefix, padding, prev, i));
                        let jw = choose|jj: int|
                            0 <= jj < prefix.len() && prev[i].start == padded_start(
                                #[trigger] prefix[jj],
                                padding,
                            ) && prev[i].start <= prefix[jj] <= prev[i].end;
                        assert(rs[i] == prev[i]);
                        assert(list[jw] == prefix[jw]);
                    } else {
                        assert(rs[i].start == padded_start(list[list.len() - 1], padding));
                        assert(rs[i].start <= list[list.len() - 1] <= rs[i].end);
                    }
                }
            }
        }
        assert(forall|k: int| 0 <= k < prefix.len() ==> list[k] == prefix[k]);
        // minimality follows: each later range is anchored by an input
        // whose padded interval begins after the previous range ends
        let rs = ranges_spec(list, padding);
        assert forall|i: int| 1 <= i < rs.len() implies no_spurious_merge(
            list,
            padding,
            rs,
            i,
        ) by {
            assert(anchored(list, padding, rs, i));
            let jw = choose|jj: int|
                0 <= jj < list.len() && rs[i].start == padded_start(#[trigger] list[jj], padding)
                    && rs[i].start <= list[jj] <= rs[i].end;
            assert(rs[i - 1].end < rs[i].start);
            assert(padded_start(list[jw], padding) > rs[i - 1].end);
        }
    }
}

/// Merge a sorted list of line numbers into the minimal sorted sequence of
/// disjoint inclusive ranges, padding each value by `padding` on both
/// sides with saturating arithmetic.
pub fn ranges(sorted_list: &[u64], padding: u64) -> (r: Vec<HunkRange>)
    ensures
        r@ == ranges_spec(sorted_list@, padding),
{
    let mut r: Vec<HunkRange> = Vec::new();
    let mut i: usize = 0;
    while i < sorted_list.len()
        invariant
            i <= sorted_list@.len(),
            r@ == ranges_spec(sorted_list@.take(i as int), padding),
        decreases sorted_list@.len() - i,
    {
        let x = sorted_list[i];
        let lo = if x >= padding {
            x - padding
        } else {
            0
        };
        let hi = if x <= u64::MAX - padding {
            x + padding
        } else {
            u64::MAX
        };
        assert(lo == padded_start(x, padding));
        assert(hi == padded_end(x, padding));
        if r.len() == 0 {
            r.push(HunkRange { start: lo, end: hi });
        } else {
            let li = r.len() - 1;
            let last = r[li];
            if last.start <= lo && lo <= last.end {
                if last.end < hi {
                    r.set(li, HunkRange { start: last.start, end: hi });
                }
            } else {
                r.push(HunkRange { start: lo, end: hi });
            }
        }
        proof {
            let t = sorted_list@.take(i + 1);
            assert(t.drop_last() =~= sorted_list@.take(i as int));
            assert(t.last() == sorted_list@[i as int]);
        }
        i += 1;
    }
    proof {
        assert(sorted_list@.take(sorted_list@.len() as int) =~= sorted_list@);
    }
    r
}

} // verus!
