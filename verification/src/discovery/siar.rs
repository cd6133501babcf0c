//! The SIAR algorithm: SIA for `r` subdiagonals, which finds a restricted
//! set of MTPs with a sliding window.

use crate::discovery::algorithm::is_extended_by;
use crate::discovery::algorithm::MtpAlgorithm;
use crate::discovery::algorithm::MtpCollector;
use crate::discovery::algorithm::MtpOutput;
use crate::discovery::sia::generated_before;
use crate::discovery::utilities::entries_ascending;
use crate::discovery::utilities::entry_lt;
use crate::discovery::utilities::frequencies_sorted;
use crate::discovery::utilities::more_frequent;
use crate::discovery::utilities::sort;
use crate::discovery::utilities::sort_frequencies;
use crate::point_set::mtp::is_mtp_of;
use crate::point_set::mtp::mtp_views;
use crate::point_set::mtp::translated_in;
use crate::point_set::mtp::Mtp;
use crate::point_set::mtp::MtpView;
use crate::point_set::pattern::Pattern;
use crate::point_set::point::is_diff;
use crate::point_set::point::Point2Di64;
use crate::point_set::set::ascending;
use crate::point_set::set::differences_fit;
use crate::point_set::set::sort_points;
use crate::point_set::set::strictly_ascending;
use crate::point_set::set::PointSet;
use vstd::multiset::Multiset;
use vstd::prelude::*;

verus! {

/// The entry holds the difference from the point at its index to one of
/// the `r` points that follow it.
pub open spec fn is_window_diff(points: Seq<Point2Di64>, r: usize, entry: (Point2Di64, usize)) -> bool {
    exists|j: int|
        entry.1 < j < points.len() && j <= entry.1 + r && is_diff(
            #[trigger] points[j],
            points[entry.1 as int],
            entry.0,
        )
}

/// Some entry holds the difference from `from`, the point at index `i`, to
/// `to`.
pub open spec fn has_window_entry(
    entries: Seq<(Point2Di64, usize)>,
    i: int,
    from: Point2Di64,
    to: Point2Di64,
) -> bool {
    exists|x: int|
        0 <= x < entries.len() && (#[trigger] entries[x]).1 == i && is_diff(to, from, entries[x].0)
}

/// The entries are, in ascending order and each once, the differences from
/// every point to each of the `r` points that follow it, each with the
/// index of the point it starts from.
pub open spec fn is_window_diff_list(
    points: Seq<Point2Di64>,
    r: usize,
    entries: Seq<(Point2Di64, usize)>,
) -> bool {
    &&& entries_ascending(entries)
    &&& forall|k: int| 0 <= k < entries.len() ==> is_window_diff(points, r, #[trigger] entries[k])
    &&& forall|i: int, j: int|
        0 <= i < j < points.len() && j <= i + r ==> #[trigger] has_window_entry(
            entries,
            i,
            points[i],
            points[j],
        )
}

/// The pattern holds, in ascending order, the points from which the
/// difference `d` leads to one of the `r` points that follow.
pub open spec fn is_window_pattern(
    points: Seq<Point2Di64>,
    r: usize,
    d: Point2Di64,
    pattern: Seq<Point2Di64>,
) -> bool {
    &&& strictly_ascending(pattern)
    &&& pattern.len() > 0
    &&& forall|p: Point2Di64| pattern.contains(p) <==> starts_window_diff(points, r, d, p)
}

/// The difference `d` leads from `p`, a point of the set, to one of the `r`
/// points that follow it.
pub open spec fn starts_window_diff(
    points: Seq<Point2Di64>,
    r: usize,
    d: Point2Di64,
    p: Point2Di64,
) -> bool {
    exists|i: int, j: int|
        0 <= i < j < points.len() && j <= i + r && #[trigger] points[i] == p && is_diff(
            #[trigger] points[j],
            p,
            d,
        )
}

/// The differences from the point at position `i` of the pattern to the
/// points after it, up to position `end`.
pub open spec fn diffs_from(pattern: Seq<Point2Di64>, i: int, end: int) -> Seq<Point2Di64>
    decreases end - i,
{
    if end <= i + 1 {
        Seq::empty()
    } else {
        diffs_from(pattern, i, end - 1).push(pattern[end - 1].minus(pattern[i]))
    }
}

/// The differences from each of the first `count` points of the pattern to
/// all the points after it.
pub open spec fn diffs_up_to(pattern: Seq<Point2Di64>, count: int) -> Seq<Point2Di64>
    decreases count,
{
    if count <= 0 {
        Seq::empty()
    } else {
        diffs_up_to(pattern, count - 1) + diffs_from(pattern, count - 1, pattern.len() as int)
    }
}

/// The differences between all pairs of points within the first `count`
/// patterns, the later point minus the earlier.
pub open spec fn intra_diffs_of(patterns: Seq<Pattern>, count: int) -> Seq<Point2Di64>
    decreases count,
{
    if count <= 0 {
        Seq::empty()
    } else {
        intra_diffs_of(patterns, count - 1) + diffs_up_to(
            patterns[count - 1]@,
            patterns[count - 1]@.len() - 1,
        )
    }
}

/// All points of the pattern are points of the set.
pub open spec fn pattern_within(points: Seq<Point2Di64>, pattern: Seq<Point2Di64>) -> bool {
    forall|i: int| 0 <= i < pattern.len() ==> points.contains(#[trigger] pattern[i])
}

/// All points of all patterns are points of the set.
pub open spec fn patterns_within(points: Seq<Point2Di64>, patterns: Seq<Pattern>) -> bool {
    forall|k: int| 0 <= k < patterns.len() ==> pattern_within(points, (#[trigger] patterns[k])@)
}

/// The frequencies are those of the differences: each difference that
/// occurs comes once, with the number of its occurrences, the more frequent
/// first and of two equally frequent ones the smaller first.
pub open spec fn are_frequencies_of(
    diffs: Multiset<Point2Di64>,
    frequencies: Seq<(Point2Di64, u64)>,
) -> bool {
    &&& forall|k: int|
        0 <= k < frequencies.len() ==> (#[trigger] frequencies[k]).1 > 0 && frequencies[k].1
            == diffs.count(frequencies[k].0)
    &&& forall|a: int, b: int|
        0 <= a < b < frequencies.len() ==> more_frequent(
            #[trigger] frequencies[a],
            #[trigger] frequencies[b],
        )
    &&& forall|d: Point2Di64|
        diffs.count(d) > 0 ==> exists|k: int|
            0 <= k < frequencies.len() && (#[trigger] frequencies[k]).0 == d
}

/// The patterns are those of the windowed differences: one for each
/// difference among them, in ascending order of the differences.
pub open spec fn are_window_patterns(
    points: Seq<Point2Di64>,
    r: usize,
    patterns: Seq<Pattern>,
) -> bool {
    exists|diffs: Seq<Point2Di64>|
        #![trigger patterns_under(points, r, diffs, patterns)]
        patterns_under(points, r, diffs, patterns)
}

/// The patterns are those of the given windowed differences, which are all
/// there are, in ascending order.
pub open spec fn patterns_under(
    points: Seq<Point2Di64>,
    r: usize,
    diffs: Seq<Point2Di64>,
    patterns: Seq<Pattern>,
) -> bool {
    &&& diffs.len() == patterns.len()
    &&& strictly_ascending(diffs)
    &&& forall|k: int|
        0 <= k < patterns.len() ==> is_window_pattern(points, r, diffs[k], (#[trigger] patterns[k])@)
    &&& forall|i: int, j: int|
        0 <= i < j < points.len() && j <= i + r ==> #[trigger] leads_among(
            diffs,
            points[i],
            points[j],
        )
}

/// One of the differences leads from `from` to `to`.
pub open spec fn leads_among(diffs: Seq<Point2Di64>, from: Point2Di64, to: Point2Di64) -> bool {
    exists|k: int| 0 <= k < diffs.len() && is_diff(to, from, #[trigger] diffs[k])
}

/// What SIAR produces: the MTPs of the differences that occur within the
/// patterns of the windowed differences, the most frequent difference
/// first.
pub open spec fn is_siar_result(points: Seq<Point2Di64>, r: usize, mtps: Seq<MtpView>) -> bool {
    exists|patterns: Seq<Pattern>, frequencies: Seq<(Point2Di64, u64)>|
        #![trigger is_siar_run(points, r, patterns, frequencies, mtps)]
        is_siar_run(points, r, patterns, frequencies, mtps)
}

/// One run of SIAR: the patterns of the windowed differences, the
/// frequencies of the differences within these patterns, and the MTPs of
/// the differences in the order of their frequencies.
pub open spec fn is_siar_run(
    points: Seq<Point2Di64>,
    r: usize,
    patterns: Seq<Pattern>,
    frequencies: Seq<(Point2Di64, u64)>,
    mtps: Seq<MtpView>,
) -> bool {
    &&& are_window_patterns(points, r, patterns)
    &&& are_frequencies_of(
        intra_diffs_of(patterns, patterns.len() as int).to_multiset(),
        frequencies,
    )
    &&& are_mtps_of_frequencies(points, frequencies, mtps)
}

/// The MTPs are those of the differences of the frequency list, in its
/// order.
pub open spec fn are_mtps_of_frequencies(
    points: Seq<Point2Di64>,
    frequencies: Seq<(Point2Di64, u64)>,
    mtps: Seq<MtpView>,
) -> bool {
    &&& mtps.len() == frequencies.len()
    &&& forall|k: int|
        0 <= k < mtps.len() ==> (#[trigger] mtps[k]).translator == frequencies[k].0 && is_mtp_of(
            points,
            mtps[k].translator,
            mtps[k].pattern,
        )
}

/// Implements the SIAR algorithm (SIA for R subdiagonals) for finding a
/// restricted set of MTPs from a point set representation of music.
pub struct SiaR {
    /// The r parameter of algorithm. This defines the number of
    /// subdiagonals computed by the algorithm, i.e., the size of the
    /// sliding window.
    pub r: usize,
}

impl MtpAlgorithm for SiaR {
    open spec fn accepts(&self, points: Seq<Point2Di64>) -> bool {
        differences_fit(points)
    }

    open spec fn produces(&self, points: Seq<Point2Di64>, mtps: Seq<MtpView>) -> bool {
        is_siar_result(points, self.r, mtps)
    }

    /// Computes and returns MTPs restricted by the window size in the given
    /// point set.
    fn compute_mtps(&self, point_set: &PointSet) -> (mtps: Vec<Mtp>) {
        let mut collector = MtpCollector { mtps: Vec::new() };
        self.compute_mtps_to_output(point_set, &mut collector);
        proof {
            let found = choose|found: Seq<MtpView>|
                #![trigger self.produces(point_set@, found)]
                self.produces(point_set@, found) && is_extended_by(
                    collector.received(),
                    Seq::<MtpView>::empty(),
                    found,
                );
            assert(mtp_views(Seq::<Mtp>::empty()) =~= Seq::<MtpView>::empty());
            assert(Seq::<MtpView>::empty() + found =~= found);
        }
        collector.mtps
    }

    fn compute_mtps_to_output<O: MtpOutput>(&self, point_set: &PointSet, on_output: &mut O) {
        let forward_diffs = self.compute_differences(point_set);
        let mtp_patterns = SiaR::partition(point_set, self.r, &forward_diffs);
        let intra_pattern_diffs = SiaR::compute_intra_pattern_diffs(point_set, &mtp_patterns);
        let intra_diff_frequencies = SiaR::compute_diff_frequencies(&intra_pattern_diffs);
        SiaR::compute_mtps(point_set, &intra_diff_frequencies, on_output);
        proof {
            let found = choose|found: Seq<MtpView>|
                #![trigger are_mtps_of_frequencies(point_set@, intra_diff_frequencies@, found)]
                are_mtps_of_frequencies(point_set@, intra_diff_frequencies@, found)
                    && is_extended_by(on_output.received(), old(on_output).received(), found);
            assert(is_siar_run(
                point_set@,
                self.r,
                mtp_patterns@,
                intra_diff_frequencies@,
                found,
            ));
            assert(is_siar_result(point_set@, self.r, found));
            assert(self.produces(point_set@, found));
        }
    }
}

impl SiaR {
    /// Computes the forward differences within the window with the indices
    /// required for MTP computation. The forward differences are sorted in
    /// ascending lexicographical order.
    pub fn compute_differences(&self, point_set: &PointSet) -> (diffs: Vec<(Point2Di64, usize)>)
        requires
            differences_fit(point_set@),
        ensures
            is_window_diff_list(point_set@, self.r, diffs@),
    {
        proof {
            use_type_invariant(point_set);
        }
        let ghost points = point_set@;
        let n = point_set.len();
        let r = self.r;
        let mut diffs: Vec<(Point2Di64, usize)> = Vec::new();
        let mut i: usize = 0;
        while i < n
            invariant
                i <= n,
                n == points.len(),
                r == self.r,
                points == point_set@,
                strictly_ascending(points),
                differences_fit(points),
                forall|k: int| 0 <= k < diffs@.len() ==> is_window_diff(points, r, #[trigger] diffs@[k]),
                forall|k: int| 0 <= k < diffs@.len() ==> (#[trigger] diffs@[k]).1 < i,
                forall|a: int, b: int|
                    0 <= a < b < diffs@.len() ==> generated_before(
                        #[trigger] diffs@[a],
                        #[trigger] diffs@[b],
                    ),
                forall|a: int, b: int|
                    0 <= a < i && a < b < n && b <= a + r ==> #[trigger] has_window_entry(
                        diffs@,
                        a,
                        points[a],
                        points[b],
                    ),
            decreases n - i,
        {
            let from = point_set[i];
            // The window holds the points after `i` up to `i + r`.
            let reach = n - 1 - i;
            let window_end = if r < reach {
                i + r + 1
            } else {
                n
            };
            let mut j: usize = i + 1;
            while j < window_end
                invariant
                    i < n,
                    i < j,
                    j <= window_end || window_end == i + 1 || j == i + 1,
                    window_end <= n,
                    window_end == if r < n - 1 - i {
                        i + r + 1
                    } else {
                        n as int
                    },
                    n == points.len(),
                    points == point_set@,
                    from == points[i as int],
                    strictly_ascending(points),
                    differences_fit(points),
                    forall|k: int|
                        0 <= k < diffs@.len() ==> is_window_diff(points, r, #[trigger] diffs@[k]),
                    forall|k: int| 0 <= k < diffs@.len() ==> (#[trigger] diffs@[k]).1 <= i,
                    forall|k: int|
                        0 <= k < diffs@.len() && (#[trigger] diffs@[k]).1 == i ==> exists|b: int|
                            i < b < j && is_diff(#[trigger] points[b], from, diffs@[k].0),
                    forall|a: int, b: int|
                        0 <= a < b < diffs@.len() ==> generated_before(
                            #[trigger] diffs@[a],
                            #[trigger] diffs@[b],
                        ),
                    forall|a: int, b: int|
                        0 <= a < i && a < b < n && b <= a + r ==> #[trigger] has_window_entry(
                            diffs@,
                            a,
                            points[a],
                            points[b],
                        ),
                    forall|b: int|
                        i < b < j ==> #[trigger] has_window_entry(diffs@, i as int, from, points[b]),
                decreases window_end - j,
            {
                let to = point_set[j];
                assert(points[j as int].can_sub(points[i as int]));
                let ghost before = diffs@;
                let entry = (to - from, i);
                diffs.push(entry);
                proof {
                    assert(is_diff(points[j as int], points[i as int], entry.0));
                    assert(is_window_diff(points, r, entry));
                    assert forall|a: int, b: int| 0 <= a < b < diffs@.len() implies generated_before(
                        #[trigger] diffs@[a],
                        #[trigger] diffs@[b],
                    ) by {
                        if b == before.len() {
                            if before[a].1 == i {
                                let x = choose|x: int|
                                    i < x < j && is_diff(#[trigger] points[x], from, before[a].0);
                                assert(points[x].lex_lt(points[j as int]));
                            }
                        } else {
                            assert(generated_before(before[a], before[b]));
                        }
                    }
                    assert forall|a: int, b: int|
                        0 <= a < i && a < b < n && b <= a + r implies #[trigger] has_window_entry(
                        diffs@,
                        a,
                        points[a],
                        points[b],
                    ) by {
                        assert(has_window_entry(before, a, points[a], points[b]));
                        let x = choose|x: int|
                            0 <= x < before.len() && (#[trigger] before[x]).1 == a && is_diff(
                                points[b],
                                points[a],
                                before[x].0,
                            );
                        assert(diffs@[x] == before[x]);
                    }
                    assert forall|b: int| i < b < j + 1 implies #[trigger] has_window_entry(
                        diffs@,
                        i as int,
                        from,
                        points[b],
                    ) by {
                        if b < j {
                            assert(has_window_entry(before, i as int, from, points[b]));
                            let x = choose|x: int|
                                0 <= x < before.len() && (#[trigger] before[x]).1 == i && is_diff(
                                    points[b],
                                    from,
                                    before[x].0,
                                );
                            assert(diffs@[x] == before[x]);
                        } else {
                            assert(diffs@[before.len() as int] == entry);
                        }
                    }
                    assert forall|k: int|
                        0 <= k < diffs@.len() && (#[trigger] diffs@[k]).1 == i implies exists|
                        b: int,
                    |
                        i < b < j + 1 && is_diff(#[trigger] points[b], from, diffs@[k].0) by {
                        if k < before.len() {
                            let x = choose|x: int|
                                i < x < j && is_diff(#[trigger] points[x], from, before[k].0);
                            assert(i < x < j + 1 && is_diff(points[x], from, diffs@[k].0));
                        } else {
                            assert(is_diff(points[j as int], from, diffs@[k].0));
                        }
                    }
                    assert forall|k: int| 0 <= k < diffs@.len() implies is_window_diff(
                        points,
                        r,
                        #[trigger] diffs@[k],
                    ) by {
                        if k < before.len() {
                            assert(diffs@[k] == before[k]);
                        }
                    }
                }
                j += 1;
            }
            i += 1;
        }
        proof {
            assert forall|a: int, b: int| 0 <= a < b < diffs@.len() implies diffs@[a] != diffs@[b] by {
                assert(generated_before(diffs@[a], diffs@[b]));
            }
        }
        let ghost unsorted = diffs@;
        sort(&mut diffs);
        proof {
            assert forall|k: int| 0 <= k < diffs@.len() implies is_window_diff(
                points,
                r,
                #[trigger] diffs@[k],
            ) by {
                assert(diffs@.contains(diffs@[k]));
                let m = choose|m: int| 0 <= m < unsorted.len() && unsorted[m] == diffs@[k];
                assert(is_window_diff(points, r, unsorted[m]));
            }
            assert forall|a: int, b: int|
                0 <= a < b < points.len() && b <= a + r implies #[trigger] has_window_entry(
                diffs@,
                a,
                points[a],
                points[b],
            ) by {
                assert(has_window_entry(unsorted, a, points[a], points[b]));
                let x = choose|x: int|
                    0 <= x < unsorted.len() && (#[trigger] unsorted[x]).1 == a && is_diff(
                        points[b],
                        points[a],
                        unsorted[x].0,
                    );
                assert(unsorted.contains(unsorted[x]));
                let y = choose|y: int| 0 <= y < diffs@.len() && diffs@[y] == unsorted[x];
                assert(diffs@[y].1 == a);
            }
        }
        diffs
    }

    /// Partitions the sorted list of difference-index pairs into MTP
    /// patterns. The MTP difference vectors are not needed in SIAR at this
    /// stage.
    pub fn partition(point_set: &PointSet, r: usize, forward_diffs: &Vec<(Point2Di64, usize)>) -> (mtp_patterns:
        Vec<Pattern>)
        requires
            is_window_diff_list(point_set@, r, forward_diffs@),
        ensures
            are_window_patterns(point_set@, r, mtp_patterns@),
            patterns_within(point_set@, mtp_patterns@),
    {
        proof {
            use_type_invariant(point_set);
        }
        let ghost points = point_set@;
        let ghost entries = forward_diffs@;
        let ghost diffs: Seq<Point2Di64> = Seq::empty();
        let mut mtp_patterns: Vec<Pattern> = Vec::new();
        let m = forward_diffs.len();
        let mut i: usize = 0;
        while i < m
            invariant
                i <= m,
                m == entries.len(),
                entries == forward_diffs@,
                points == point_set@,
                strictly_ascending(points),
                is_window_diff_list(points, r, entries),
                0 < i < m ==> entries[i - 1].0 != entries[i as int].0,
                diffs.len() == mtp_patterns@.len(),
                strictly_ascending(diffs),
                forall|k: int|
                    0 <= k < mtp_patterns@.len() ==> is_window_pattern(
                        points,
                        r,
                        diffs[k],
                        (#[trigger] mtp_patterns@[k])@,
                    ),
                forall|k: int| 0 <= k < diffs.len() && i < m ==> (#[trigger] diffs[k]).lex_lt(
                    entries[i as int].0,
                ),
                forall|x: int| 0 <= x < i ==> diffs.contains((#[trigger] entries[x]).0),
            decreases m - i,
        {
            let mut indices: Vec<usize> = Vec::new();
            let translator = forward_diffs[i].0;
            let mut j: usize = i;
            while j < m && translator == forward_diffs[j].0
                invariant
                    i <= j <= m,
                    i < m,
                    m == entries.len(),
                    entries == forward_diffs@,
                    translator == entries[i as int].0,
                    indices@.len() == j - i,
                    forall|k: int| 0 <= k < j - i ==> indices@[k] == entries[i + k].1,
                    forall|x: int| i <= x < j ==> (#[trigger] entries[x]).0 == translator,
                decreases m - j,
            {
                indices.push(forward_diffs[j].1);
                j += 1;
            }
            proof {
                assert forall|k: int| 0 <= k < indices@.len() implies indices@[k] < points.len() by {
                    assert(is_window_diff(points, r, entries[i + k]));
                }
            }
            let pattern = point_set.get_pattern(&indices);
            let ghost before = mtp_patterns@;
            let ghost diffs_before = diffs;
            proof {
                lemma_run_is_window_pattern(points, r, entries, i as int, j as int, pattern@);
                diffs = diffs.push(translator);
                assert forall|a: int, b: int| 0 <= a < b < diffs.len() implies (
                #[trigger] diffs[a]).lex_lt(#[trigger] diffs[b]) by {
                    if b < diffs_before.len() {
                        assert(diffs_before[a].lex_lt(diffs_before[b]));
                    } else {
                        assert(diffs_before[a].lex_lt(entries[i as int].0));
                    }
                }
                if j < m {
                    assert(entry_lt(entries[j - 1], entries[j as int]));
                    assert(entries[j - 1].0 == translator);
                    assert forall|k: int| 0 <= k < diffs.len() implies (#[trigger] diffs[k]).lex_lt(
                        entries[j as int].0,
                    ) by {
                        if k < diffs_before.len() {
                            assert(diffs_before[k].lex_lt(entries[i as int].0));
                        }
                    }
                }
                assert forall|x: int| 0 <= x < j implies diffs.contains((#[trigger] entries[x]).0) by {
                    if x < i {
                        assert(diffs_before.contains(entries[x].0));
                        let k = choose|k: int|
                            0 <= k < diffs_before.len() && diffs_before[k] == entries[x].0;
                        assert(diffs[k] == entries[x].0);
                    } else {
                        assert(diffs[diffs_before.len() as int] == entries[x].0);
                    }
                }
            }
            mtp_patterns.push(pattern);
            proof {
                assert forall|k: int| 0 <= k < mtp_patterns@.len() implies is_window_pattern(
                    points,
                    r,
                    diffs[k],
                    (#[trigger] mtp_patterns@[k])@,
                ) by {
                    if k < before.len() {
                        assert(mtp_patterns@[k] == before[k]);
                        assert(diffs[k] == diffs_before[k]);
                    }
                }
            }
            i = j;
        }
        proof {
            assert forall|a: int, b: int|
                0 <= a < b < points.len() && b <= a + r implies #[trigger] leads_among(
                diffs,
                points[a],
                points[b],
            ) by {
                assert(has_window_entry(entries, a, points[a], points[b]));
                let x = choose|x: int|
                    0 <= x < entries.len() && (#[trigger] entries[x]).1 == a && is_diff(
                        points[b],
                        points[a],
                        entries[x].0,
                    );
                assert(diffs.contains(entries[x].0));
                let k = choose|k: int| 0 <= k < diffs.len() && diffs[k] == entries[x].0;
                assert(is_diff(points[b], points[a], diffs[k]));
            }
            assert(patterns_under(points, r, diffs, mtp_patterns@));
            assert forall|k: int| 0 <= k < mtp_patterns@.len() implies pattern_within(
                points,
                (#[trigger] mtp_patterns@[k])@,
            ) by {
                let pattern = mtp_patterns@[k]@;
                assert(is_window_pattern(points, r, diffs[k], pattern));
                assert forall|i: int| 0 <= i < pattern.len() implies points.contains(
                    #[trigger] pattern[i],
                ) by {
                    assert(pattern.contains(pattern[i]));
                    assert(starts_window_diff(points, r, diffs[k], pattern[i]));
                }
            }
        }
        mtp_patterns
    }

    /// Computes the intrapattern difference vectors (forward differences
    /// between points belonging to same pattern) and sorts them in
    /// ascending order.
    pub fn compute_intra_pattern_diffs(point_set: &PointSet, mtp_patterns: &Vec<Pattern>) -> (intra_diffs:
        Vec<Point2Di64>)
        requires
            differences_fit(point_set@),
            patterns_within(point_set@, mtp_patterns@),
        ensures
            ascending(intra_diffs@),
            intra_diffs@.to_multiset() == intra_diffs_of(
                mtp_patterns@,
                mtp_patterns@.len() as int,
            ).to_multiset(),
    {
        let ghost points = point_set@;
        let mut intra_diffs: Vec<Point2Di64> = Vec::new();
        let mut k: usize = 0;
        while k < mtp_patterns.len()
            invariant
                k <= mtp_patterns@.len(),
                points == point_set@,
                differences_fit(points),
                patterns_within(points, mtp_patterns@),
                intra_diffs@ == intra_diffs_of(mtp_patterns@, k as int),
            decreases mtp_patterns@.len() - k,
        {
            let pattern = &mtp_patterns[k];
            let ghost shape = pattern@;
            let ghost done = intra_diffs@;
            proof {
                assert(pattern_within(points, mtp_patterns@[k as int]@));
                assert(done + diffs_up_to(shape, 0) =~= done);
            }
            let p = pattern.len();
            let mut i: usize = 0;
            while i + 1 < p
                invariant
                    i <= p,
                    p == shape.len(),
                    shape == pattern@,
                    differences_fit(points),
                    forall|x: int| 0 <= x < shape.len() ==> points.contains(#[trigger] shape[x]),
                    i + 1 <= p || p == 0,
                    intra_diffs@ == done + diffs_up_to(shape, i as int),
                decreases p - i,
            {
                let from = pattern[i];
                let ghost row_start = intra_diffs@;
                let mut j: usize = i + 1;
                while j < p
                    invariant
                        i + 1 <= j <= p,
                        p == shape.len(),
                        shape == pattern@,
                        from == shape[i as int],
                        differences_fit(points),
                        forall|x: int| 0 <= x < shape.len() ==> points.contains(#[trigger] shape[x]),
                        intra_diffs@ == row_start + diffs_from(shape, i as int, j as int),
                    decreases p - j,
                {
                    proof {
                        assert(points.contains(shape[i as int]));
                        assert(points.contains(shape[j as int]));
                        let a = choose|a: int| 0 <= a < points.len() && points[a] == shape[i as int];
                        let b = choose|b: int| 0 <= b < points.len() && points[b] == shape[j as int];
                        assert(points[b].can_sub(points[a]));
                    }
                    let ghost before = intra_diffs@;
                    intra_diffs.push(pattern[j] - from);
                    proof {
                        assert(intra_diffs@ =~= row_start + diffs_from(shape, i as int, j + 1));
                    }
                    j += 1;
                }
                proof {
                    assert(intra_diffs@ =~= done + diffs_up_to(shape, i + 1));
                }
                i += 1;
            }
            proof {
                if p == 0 {
                    assert(diffs_up_to(shape, -1) =~= Seq::<Point2Di64>::empty());
                    assert(intra_diffs@ =~= done + diffs_up_to(shape, p - 1));
                } else {
                    assert(i == p - 1);
                }
                assert(intra_diffs@ =~= intra_diffs_of(mtp_patterns@, k + 1));
            }
            k += 1;
        }
        sort_points(&mut intra_diffs);
        intra_diffs
    }

    /// Computes the frequencies of the difference vectors. Returns a vector
    /// of pairs with:
    /// 0. the difference vector
    /// 1. its number of occurrences in the differences
    ///
    /// Duplication is removed by computing the frequencies. The frequencies
    /// are returned in descending order of frequency: the most frequent
    /// difference is first.
    pub fn compute_diff_frequencies(intra_diffs: &Vec<Point2Di64>) -> (frequencies: Vec<
        (Point2Di64, u64),
    >)
        requires
            ascending(intra_diffs@),
        ensures
            are_frequencies_of(intra_diffs@.to_multiset(), frequencies@),
    {
        let ghost diffs = intra_diffs@;
        let mut frequencies: Vec<(Point2Di64, u64)> = Vec::new();
        if intra_diffs.len() == 0 {
            proof {
                assert forall|d: Point2Di64| diffs.to_multiset().count(d) > 0 implies false by {
                    vstd::seq_lib::to_multiset_contains(diffs, d);
                }
            }
            return frequencies;
        }
        let mut current = intra_diffs[0];
        let mut freq: u64 = 0;
        let mut i: usize = 0;
        proof {
            assert(diffs.subrange(0, 0) =~= Seq::<Point2Di64>::empty());
            lemma_counted_nothing(diffs);
        }
        while i < intra_diffs.len()
            invariant
                i <= diffs.len(),
                diffs == intra_diffs@,
                diffs.len() > 0,
                ascending(diffs),
                freq <= i,
                i > 0 ==> current == diffs[i - 1],
                i == 0 ==> current == diffs[0],
                counted_up_to(diffs, i as int, current, freq, frequencies@),
            decreases diffs.len() - i,
        {
            let diff = intra_diffs[i];
            let ghost before = frequencies@;
            if current == diff {
                proof {
                    lemma_counted_same(diffs, i as int, current, freq, frequencies@);
                }
                freq += 1;
            } else {
                frequencies.push((current, freq));
                proof {
                    lemma_counted_next(diffs, i as int, current, freq, before);
                }
                freq = 1;
                current = diff;
            }
            i += 1;
        }
        // Add the last one
        let ghost before = frequencies@;
        frequencies.push((current, freq));
        proof {
            lemma_counted_all(diffs, current, freq, before);
        }
        let ghost unsorted = frequencies@;
        // Sort by descending frequency
        sort_frequencies(&mut frequencies);
        proof {
            lemma_sorted_frequencies(diffs.to_multiset(), unsorted, frequencies@);
        }
        frequencies
    }

    /// Computes the MTPs for the intra pattern differences in descending
    /// order of frequency.
    pub fn compute_mtps<O: MtpOutput>(
        point_set: &PointSet,
        intra_diff_freqs: &Vec<(Point2Di64, u64)>,
        on_output: &mut O,
    )
        ensures
            exists|mtps: Seq<MtpView>|
                #![trigger are_mtps_of_frequencies(point_set@, intra_diff_freqs@, mtps)]
                are_mtps_of_frequencies(point_set@, intra_diff_freqs@, mtps) && is_extended_by(
                    final(on_output).received(),
                    old(on_output).received(),
                    mtps,
                ),
    {
        let ghost points = point_set@;
        let ghost emitted: Seq<MtpView> = Seq::empty();
        assert(old(on_output).received() + emitted =~= old(on_output).received());
        let mut k: usize = 0;
        while k < intra_diff_freqs.len()
            invariant
                k <= intra_diff_freqs@.len(),
                points == point_set@,
                on_output.received() == old(on_output).received() + emitted,
                emitted.len() == k,
                forall|x: int|
                    0 <= x < k ==> (#[trigger] emitted[x]).translator == intra_diff_freqs@[x].0
                        && is_mtp_of(points, emitted[x].translator, emitted[x].pattern),
            decreases intra_diff_freqs@.len() - k,
        {
            let translator = intra_diff_freqs[k].0;
            let intersection = point_set.translatable_points(&translator);
            let pattern = Pattern::from_points(intersection.points());
            let mtp = Mtp { translator, pattern };
            proof {
                assert forall|p: Point2Di64|
                    mtp.pattern@.contains(p) <==> (points.contains(p) && translated_in(
                        points,
                        p,
                        translator,
                    )) by {}
                assert((old(on_output).received() + emitted).push(mtp@) =~= old(
                    on_output,
                ).received() + emitted.push(mtp@));
                emitted = emitted.push(mtp@);
            }
            on_output.output(mtp);
            k += 1;
        }
        proof {
            assert(are_mtps_of_frequencies(points, intra_diff_freqs@, emitted));
        }
    }
}

/// A maximal run of entries with one difference gives the window pattern of
/// that difference.
proof fn lemma_run_is_window_pattern(
    points: Seq<Point2Di64>,
    r: usize,
    entries: Seq<(Point2Di64, usize)>,
    s: int,
    e: int,
    pattern: Seq<Point2Di64>,
)
    requires
        strictly_ascending(points),
        is_window_diff_list(points, r, entries),
        0 <= s < e <= entries.len(),
        forall|x: int| s <= x < e ==> (#[trigger] entries[x]).0 == entries[s].0,
        s > 0 ==> entries[s - 1].0 != entries[s].0,
        e < entries.len() ==> entries[e].0 != entries[s].0,
        pattern.len() == e - s,
        forall|k: int| 0 <= k < e - s ==> #[trigger] pattern[k] == points[entries[s + k].1 as int],
    ensures
        is_window_pattern(points, r, entries[s].0, pattern),
{
    let d = entries[s].0;
    assert forall|a: int, b: int| 0 <= a < b < pattern.len() implies (#[trigger] pattern[a]).lex_lt(
        #[trigger] pattern[b],
    ) by {
        assert(entry_lt(entries[s + a], entries[s + b]));
        assert(entries[s + a].0 == d);
        assert(entries[s + b].0 == d);
        assert(is_window_diff(points, r, entries[s + a]));
        assert(is_window_diff(points, r, entries[s + b]));
        assert(points[entries[s + a].1 as int].lex_lt(points[entries[s + b].1 as int]));
    }
    assert(entries[e - 1].0 == d);
    assert forall|p: Point2Di64| pattern.contains(p) <==> starts_window_diff(points, r, d, p) by {
        if pattern.contains(p) {
            let k = choose|k: int| 0 <= k < pattern.len() && pattern[k] == p;
            assert(is_window_diff(points, r, entries[s + k]));
            assert(entries[s + k].0 == d);
            let j = choose|j: int|
                entries[s + k].1 < j < points.len() && j <= entries[s + k].1 + r && is_diff(
                    #[trigger] points[j],
                    points[entries[s + k].1 as int],
                    entries[s + k].0,
                );
            let i = entries[s + k].1 as int;
            assert(points[i] == p && is_diff(points[j], p, d));
        }
        if starts_window_diff(points, r, d, p) {
            let (i, j) = choose|i: int, j: int|
                0 <= i < j < points.len() && j <= i + r && #[trigger] points[i] == p && is_diff(
                    #[trigger] points[j],
                    p,
                    d,
                );
            assert(has_window_entry(entries, i, points[i], points[j]));
            let x = choose|x: int|
                0 <= x < entries.len() && (#[trigger] entries[x]).1 == i && is_diff(
                    points[j],
                    points[i],
                    entries[x].0,
                );
            assert(entries[x].0 == d);
            if x < s {
                assert(entry_lt(entries[s - 1], entries[s]));
                if x < s - 1 {
                    assert(entry_lt(entries[x], entries[s - 1]));
                }
            }
            if x >= e {
                assert(entry_lt(entries[e - 1], entries[e]));
                if x > e {
                    assert(entry_lt(entries[e], entries[x]));
                }
            }
            assert(pattern[x - s] == points[entries[s + (x - s)].1 as int]);
        }
    }
}

/// How often `d` occurs among the first `i` of the differences.
pub open spec fn occurrences_before(diffs: Seq<Point2Di64>, i: int, d: Point2Di64) -> nat {
    diffs.subrange(0, i).to_multiset().count(d)
}

/// What has been counted once the first `i` differences are dealt with:
/// the running difference occurs `freq` times among them, every smaller
/// difference among them has its frequency recorded, and nothing else is
/// recorded.
pub open spec fn counted_up_to(
    diffs: Seq<Point2Di64>,
    i: int,
    current: Point2Di64,
    freq: u64,
    frequencies: Seq<(Point2Di64, u64)>,
) -> bool {
    &&& occurrences_before(diffs, i, current) == freq
    &&& forall|k: int|
        0 <= k < frequencies.len() ==> (#[trigger] frequencies[k]).1 > 0 && frequencies[k].1
            == diffs.to_multiset().count(frequencies[k].0) && frequencies[k].0.lex_lt(current)
    &&& forall|a: int, b: int|
        0 <= a < b < frequencies.len() ==> (#[trigger] frequencies[a]).0.lex_lt(
            (#[trigger] frequencies[b]).0,
        )
    &&& forall|x: int|
        0 <= x < i && x < diffs.len() ==> (#[trigger] diffs[x]) == current || has_frequency(
            frequencies,
            diffs[x],
        )
}

/// The frequency list has an entry for `d`.
pub open spec fn has_frequency(frequencies: Seq<(Point2Di64, u64)>, d: Point2Di64) -> bool {
    exists|k: int| 0 <= k < frequencies.len() && (#[trigger] frequencies[k]).0 == d
}

proof fn lemma_counted_nothing(diffs: Seq<Point2Di64>)
    requires
        diffs.len() > 0,
    ensures
        counted_up_to(diffs, 0, diffs[0], 0, Seq::<(Point2Di64, u64)>::empty()),
{
    assert(diffs.subrange(0, 0) =~= Seq::<Point2Di64>::empty());
    vstd::seq_lib::to_multiset_contains(diffs.subrange(0, 0), diffs[0]);
}

/// How the occurrences among the first `i + 1` differences follow from
/// those among the first `i`.
proof fn lemma_occurrences_step(diffs: Seq<Point2Di64>, i: int, d: Point2Di64)
    requires
        0 <= i < diffs.len(),
    ensures
        occurrences_before(diffs, i + 1, d) == occurrences_before(diffs, i, d) + if diffs[i] == d {
            1nat
        } else {
            0nat
        },
{
    assert(diffs.subrange(0, i + 1) =~= diffs.subrange(0, i).push(diffs[i]));
    vstd::seq_lib::to_multiset_build(diffs.subrange(0, i), diffs[i]);
}

/// In an ascending sequence, a difference smaller than the one at position
/// `i` does not occur from `i` on, so its occurrences before `i` are all
/// its occurrences.
proof fn lemma_occurrences_complete(diffs: Seq<Point2Di64>, i: int, d: Point2Di64)
    requires
        ascending(diffs),
        0 <= i <= diffs.len(),
        i < diffs.len() ==> d.lex_lt(diffs[i]),
    ensures
        occurrences_before(diffs, i, d) == diffs.to_multiset().count(d),
    decreases diffs.len() - i,
{
    if i < diffs.len() {
        lemma_occurrences_step(diffs, i, d);
        if i + 1 < diffs.len() {
            assert(diffs[i].lex_le(diffs[i + 1]));
        }
        lemma_occurrences_complete(diffs, i + 1, d);
    } else {
        assert(diffs.subrange(0, i) =~= diffs);
    }
}

proof fn lemma_counted_same(
    diffs: Seq<Point2Di64>,
    i: int,
    current: Point2Di64,
    freq: u64,
    frequencies: Seq<(Point2Di64, u64)>,
)
    requires
        0 <= i < diffs.len(),
        diffs[i] == current,
        freq <= i,
        freq < u64::MAX,
        counted_up_to(diffs, i, current, freq, frequencies),
    ensures
        counted_up_to(diffs, i + 1, current, (freq + 1) as u64, frequencies),
{
    lemma_occurrences_step(diffs, i, current);
}

proof fn lemma_counted_next(
    diffs: Seq<Point2Di64>,
    i: int,
    current: Point2Di64,
    freq: u64,
    frequencies: Seq<(Point2Di64, u64)>,
)
    requires
        ascending(diffs),
        0 < i < diffs.len(),
        diffs[i - 1] == current,
        diffs[i] != current,
        counted_up_to(diffs, i, current, freq, frequencies),
    ensures
        counted_up_to(diffs, i + 1, diffs[i], 1, frequencies.push((current, freq))),
{
    let next = diffs[i];
    let longer = frequencies.push((current, freq));
    assert(diffs[i - 1].lex_le(diffs[i]));
    assert(current.lex_lt(next));
    lemma_occurrences_complete(diffs, i, current);
    lemma_occurrences_step(diffs, i - 1, current);
    lemma_occurrences_step(diffs, i, next);
    assert(occurrences_before(diffs, i, next) == 0) by {
        if occurrences_before(diffs, i, next) > 0 {
            vstd::seq_lib::to_multiset_contains(diffs.subrange(0, i), next);
            let x = choose|x: int|
                0 <= x < diffs.subrange(0, i).len() && diffs.subrange(0, i)[x] == next;
            assert(diffs.subrange(0, i)[x] == diffs[x]);
            if x < i - 1 {
                assert(diffs[x].lex_le(diffs[i - 1]));
            }
        }
    }
    assert forall|k: int| 0 <= k < longer.len() implies (#[trigger] longer[k]).1 > 0 && longer[k].1
        == diffs.to_multiset().count(longer[k].0) && longer[k].0.lex_lt(next) by {
        if k < frequencies.len() {
            assert(longer[k] == frequencies[k]);
        }
    }
    assert forall|a: int, b: int| 0 <= a < b < longer.len() implies (#[trigger] longer[a]).0.lex_lt(
        (#[trigger] longer[b]).0,
    ) by {
        if b < frequencies.len() {
            assert(frequencies[a].0.lex_lt(frequencies[b].0));
        } else {
            assert(longer[a] == frequencies[a]);
        }
    }
    assert forall|x: int| 0 <= x < i + 1 && x < diffs.len() implies (#[trigger] diffs[x]) == next
        || has_frequency(longer, diffs[x]) by {
        if x < i {
            if diffs[x] == current {
                assert(longer[frequencies.len() as int].0 == current);
            } else {
                assert(has_frequency(frequencies, diffs[x]));
                let k = choose|k: int|
                    0 <= k < frequencies.len() && (#[trigger] frequencies[k]).0 == diffs[x];
                assert(longer[k] == frequencies[k]);
            }
        }
    }
}

proof fn lemma_counted_all(
    diffs: Seq<Point2Di64>,
    current: Point2Di64,
    freq: u64,
    frequencies: Seq<(Point2Di64, u64)>,
)
    requires
        diffs.len() > 0,
        current == diffs[diffs.len() - 1],
        counted_up_to(diffs, diffs.len() as int, current, freq, frequencies),
    ensures
        forall|k: int|
            0 <= k < frequencies.push((current, freq)).len() ==> (#[trigger] frequencies.push(
                (current, freq),
            )[k]).1 > 0 && frequencies.push((current, freq))[k].1 == diffs.to_multiset().count(
                frequencies.push((current, freq))[k].0,
            ),
        forall|a: int, b: int|
            0 <= a < b < frequencies.push((current, freq)).len() ==> (#[trigger] frequencies.push(
                (current, freq),
            )[a]).0 != (#[trigger] frequencies.push((current, freq))[b]).0,
        forall|d: Point2Di64|
            diffs.to_multiset().count(d) > 0 ==> has_frequency(
                frequencies.push((current, freq)),
                d,
            ),
{
    let longer = frequencies.push((current, freq));
    assert(diffs.subrange(0, diffs.len() as int) =~= diffs);
    lemma_occurrences_step(diffs, diffs.len() - 1, current);
    assert forall|k: int| 0 <= k < longer.len() implies (#[trigger] longer[k]).1 > 0 && longer[k].1
        == diffs.to_multiset().count(longer[k].0) by {
        if k < frequencies.len() {
            assert(longer[k] == frequencies[k]);
        }
    }
    assert forall|a: int, b: int| 0 <= a < b < longer.len() implies (#[trigger] longer[a]).0 != (
    #[trigger] longer[b]).0 by {
        if b < frequencies.len() {
            assert(frequencies[a].0.lex_lt(frequencies[b].0));
        } else {
            assert(longer[a] == frequencies[a]);
            assert(frequencies[a].0.lex_lt(current));
        }
    }
    assert forall|d: Point2Di64| diffs.to_multiset().count(d) > 0 implies has_frequency(
        longer,
        d,
    ) by {
        vstd::seq_lib::to_multiset_contains(diffs, d);
        let x = choose|x: int| 0 <= x < diffs.len() && diffs[x] == d;
        if diffs[x] == current {
            assert(longer[frequencies.len() as int].0 == d);
        } else {
            assert(has_frequency(frequencies, diffs[x]));
            let k = choose|k: int|
                0 <= k < frequencies.len() && (#[trigger] frequencies[k]).0 == diffs[x];
            assert(longer[k] == frequencies[k]);
        }
    }
}

/// Sorting the frequencies by frequency gives the frequency list.
proof fn lemma_sorted_frequencies(
    diffs: Multiset<Point2Di64>,
    unsorted: Seq<(Point2Di64, u64)>,
    sorted: Seq<(Point2Di64, u64)>,
)
    requires
        sorted.to_multiset() == unsorted.to_multiset(),
        frequencies_sorted(sorted),
        forall|k: int|
            0 <= k < unsorted.len() ==> (#[trigger] unsorted[k]).1 > 0 && unsorted[k].1
                == diffs.count(unsorted[k].0),
        forall|a: int, b: int|
            0 <= a < b < unsorted.len() ==> (#[trigger] unsorted[a]).0 != (#[trigger] unsorted[b]).0,
        forall|d: Point2Di64| diffs.count(d) > 0 ==> has_frequency(unsorted, d),
    ensures
        are_frequencies_of(diffs, sorted),
{
    assert(unsorted.no_duplicates());
    unsorted.lemma_multiset_has_no_duplicates();
    sorted.lemma_multiset_has_no_duplicates_conv();
    assert forall|k: int| 0 <= k < sorted.len() implies (#[trigger] sorted[k]).1 > 0 && sorted[k].1
        == diffs.count(sorted[k].0) by {
        assert(sorted.contains(sorted[k]));
        vstd::seq_lib::to_multiset_contains(sorted, sorted[k]);
        vstd::seq_lib::to_multiset_contains(unsorted, sorted[k]);
        let m = choose|m: int| 0 <= m < unsorted.len() && unsorted[m] == sorted[k];
        assert(unsorted[m].1 > 0);
    }
    assert forall|a: int, b: int| 0 <= a < b < sorted.len() implies more_frequent(
        #[trigger] sorted[a],
        #[trigger] sorted[b],
    ) by {
        assert(!more_frequent(sorted[b], sorted[a]));
        assert(sorted[a] != sorted[b]);
        assert(sorted[a].1 == diffs.count(sorted[a].0));
        assert(sorted[b].1 == diffs.count(sorted[b].0));
    }
    assert forall|d: Point2Di64| diffs.count(d) > 0 implies exists|k: int|
        0 <= k < sorted.len() && (#[trigger] sorted[k]).0 == d by {
        assert(has_frequency(unsorted, d));
        let m = choose|m: int| 0 <= m < unsorted.len() && (#[trigger] unsorted[m]).0 == d;
        assert(unsorted.contains(unsorted[m]));
        vstd::seq_lib::to_multiset_contains(sorted, unsorted[m]);
        vstd::seq_lib::to_multiset_contains(unsorted, unsorted[m]);
        let k = choose|k: int| 0 <= k < sorted.len() && sorted[k] == unsorted[m];
        assert(sorted[k].0 == d);
    }
}

} // verus!
