//! The sliding windows of SIATEC-C: for each point, the range of later
//! points whose differences are computed in one round.

use crate::discovery::siatec::Siatec;
use crate::discovery::siatec_c::has_pair_entry;
use crate::discovery::siatec_c::indices_ascending;
use crate::discovery::siatec_c::is_grouping_of;
use crate::discovery::siatec_c::is_index_group;
use crate::discovery::siatec_c::is_segment;
use crate::discovery::siatec_c::is_split_on_gaps;
use crate::discovery::siatec_c::is_valid_diff_list;
use crate::discovery::siatec_c::is_windowed_entry;
use crate::discovery::siatec_c::joined_points;
use crate::discovery::siatec_c::joined_sources;
use crate::discovery::siatec_c::joined_targets;
use crate::discovery::siatec_c::pair_generated_before;
use crate::discovery::siatec_c::split_view;
use crate::discovery::siatec_c::split_views;
use crate::discovery::siatec_c::IndPair;
use crate::discovery::siatec_c::SiatecC;
use crate::discovery::siatec_c::SplitPattern;
use crate::discovery::siatec_c::SplitView;
use crate::discovery::utilities::lengths_sorted;
use crate::discovery::utilities::longer_first;
use crate::discovery::utilities::pair_entries_sorted;
use crate::discovery::utilities::pair_entry_lt;
use crate::discovery::utilities::sort_positions_by_length;
use crate::discovery::utilities::sort_with_ind_pairs;
use crate::point_set::mtp::Mtp;
use crate::point_set::point::is_diff;
use crate::point_set::point::is_sum;
use crate::point_set::point::Point2Di64;
use crate::point_set::set::differences_fit;
use crate::point_set::set::strictly_ascending;
use crate::point_set::set::PointSet;
use vstd::prelude::*;

verus! {

/// The largest magnitude that the upper bound of a window can reach.
pub open spec fn bound_limit() -> int {
    0x1_0000_0000_0000_0000
}

/// The upper bounds are small enough to be raised by an inter-onset
/// interval without overflow.
pub open spec fn bounds_in_range(bounds: Seq<i128>) -> bool {
    forall|i: int| 0 <= i < bounds.len() ==> -bound_limit() <= #[trigger] bounds[i] <= bound_limit()
}

/// No window begins before the point it belongs to.
pub open spec fn windows_begin_after(targets: Seq<usize>) -> bool {
    forall|i: int| 0 <= i < targets.len() ==> i <= #[trigger] targets[i]
}

/// The entry holds the difference from a point of the set to a later one.
pub open spec fn is_forward_entry(points: Seq<Point2Di64>, entry: (Point2Di64, IndPair)) -> bool {
    &&& entry.1.0 < entry.1.1 < points.len()
    &&& is_diff(points[entry.1.1 as int], points[entry.1.0 as int], entry.0)
}

/// The point at `j` lies in the window of the point at `i`, where the
/// window begins at `begin`, ends before `end`, and never holds the point
/// itself.
pub open spec fn in_window(i: int, j: int, begin: int, end: int) -> bool {
    begin <= j < end && j != i
}

/// How one round moves the window of the point at `i`: the window takes in
/// the points from its beginning up to the first whose onset lies above the
/// upper bound. Where there is such a point, the next window begins there
/// and the bound is raised by `max_ioi`; otherwise no window is left.
pub open spec fn window_advanced(
    points: Seq<Point2Di64>,
    max_ioi: i64,
    i: int,
    old_target: usize,
    old_bound: i128,
    new_target: usize,
    new_bound: i128,
) -> bool {
    &&& old_target <= new_target <= points.len()
    &&& forall|j: int|
        in_window(i, j, old_target as int, new_target as int) ==> (#[trigger] points[j]).x
            <= old_bound
    &&& new_target < points.len() ==> points[new_target as int].x > old_bound && new_target != i
        && new_bound == old_bound + max_ioi
    &&& new_target == points.len() ==> new_bound == old_bound
}

/// The window of the point at `i` is open: the point is not the last one
/// and its window has not reached the end of the set.
pub open spec fn window_open(n: int, i: int, target: usize) -> bool {
    i < n - 1 && target < n
}

/// What one round does to the windows and which differences it yields:
/// every open window is advanced, the others stay, and the differences are
/// those from each point to the points that were in its window.
pub open spec fn is_window_round(
    points: Seq<Point2Di64>,
    max_ioi: i64,
    old_targets: Seq<usize>,
    old_bounds: Seq<i128>,
    new_targets: Seq<usize>,
    new_bounds: Seq<i128>,
    entries: Seq<(Point2Di64, IndPair)>,
) -> bool {
    &&& new_targets.len() == points.len()
    &&& new_bounds.len() == points.len()
    &&& forall|i: int|
        0 <= i < points.len() ==> if window_open(points.len() as int, i, old_targets[i]) {
            window_advanced(
                points,
                max_ioi,
                i,
                old_targets[i],
                old_bounds[i],
                #[trigger] new_targets[i],
                new_bounds[i],
            )
        } else {
            new_targets[i] == old_targets[i] && new_bounds[i] == old_bounds[i]
        }
    &&& forall|k: int|
        0 <= k < entries.len() ==> is_forward_entry(points, #[trigger] entries[k]) && in_window(
            entries[k].1.0 as int,
            entries[k].1.1 as int,
            old_targets[entries[k].1.0 as int] as int,
            new_targets[entries[k].1.0 as int] as int,
        )
    &&& forall|i: int, j: int|
        0 <= i < points.len() - 1 && #[trigger] in_window(
            i,
            j,
            old_targets[i] as int,
            new_targets[i] as int,
        ) ==> has_pair_entry(entries, i, j)
    &&& forall|a: int, b: int|
        0 <= a < b < entries.len() ==> pair_generated_before(
            (#[trigger] entries[a]).1,
            (#[trigger] entries[b]).1,
        )
}

/// An MTP of one round together with, for each of its points, the index of
/// the point in the point set and the index of the point that the
/// translator moves it onto.
pub type WindowedMtp = (Mtp, Vec<usize>, Vec<usize>);

/// The pattern holds the points at the source indices, which ascend, and
/// the translator moves each of them onto the point at the target index
/// beside it.
pub open spec fn is_windowed_mtp(points: Seq<Point2Di64>, mtp: WindowedMtp) -> bool {
    &&& mtp.0.pattern@.len() > 0
    &&& mtp.1@.len() == mtp.0.pattern@.len()
    &&& mtp.2@.len() == mtp.0.pattern@.len()
    &&& indices_ascending(mtp.1@)
    &&& forall|k: int|
        0 <= k < mtp.1@.len() ==> {
            &&& (#[trigger] mtp.1@[k]) < mtp.2@[k]
            &&& mtp.2@[k] < points.len()
            &&& mtp.0.pattern@[k] == points[mtp.1@[k] as int]
            &&& is_sum(points[mtp.1@[k] as int], mtp.0.translator, points[mtp.2@[k] as int])
        }
}

/// One of the MTPs has the difference of the entry as its translator and
/// holds the index pair of the entry.
pub open spec fn has_mtp_pair(mtps: Seq<WindowedMtp>, entry: (Point2Di64, IndPair)) -> bool {
    exists|g: int, k: int|
        0 <= g < mtps.len() && 0 <= k < mtps[g].1@.len() && mtps[g].0.translator == entry.0 && (
        #[trigger] mtps[g].1@[k]) == entry.1.0 && mtps[g].2@[k] == entry.1.1
}

/// The MTPs are those of the entries: one for each difference among the
/// entries, in ascending order of the differences, each with the index
/// pairs of the entries that hold its difference.
pub open spec fn are_mtps_of(
    points: Seq<Point2Di64>,
    entries: Seq<(Point2Di64, IndPair)>,
    mtps: Seq<WindowedMtp>,
) -> bool {
    &&& forall|g: int| 0 <= g < mtps.len() ==> is_windowed_mtp(points, #[trigger] mtps[g])
    &&& forall|a: int, b: int|
        0 <= a < b < mtps.len() ==> (#[trigger] mtps[a]).0.translator.lex_lt(
            (#[trigger] mtps[b]).0.translator,
        )
    &&& forall|x: int| 0 <= x < entries.len() ==> has_mtp_pair(mtps, #[trigger] entries[x])
    &&& forall|g: int, k: int|
        0 <= g < mtps.len() && 0 <= k < mtps[g].1@.len() ==> entries.contains(
            (mtps[g].0.translator, (#[trigger] mtps[g].1@[k], mtps[g].2@[k])),
        )
}

/// The segment is a piece of the MTP: a run of neighbouring points of its
/// pattern with their source and target indices.
pub open spec fn is_piece_of(mtp: WindowedMtp, segment: SplitView) -> bool {
    exists|offset: int|
        0 <= offset && offset + segment.0.len() <= mtp.0.pattern@.len() && segment.0
            == #[trigger] mtp.0.pattern@.subrange(offset, offset + segment.0.len()) && segment.1
            == mtp.1@.subrange(offset, offset + segment.0.len()) && segment.2 == mtp.2@.subrange(
            offset,
            offset + segment.0.len(),
        )
}

/// The segment is a piece of one of the MTPs.
pub open spec fn is_piece_of_some(mtps: Seq<WindowedMtp>, segment: SplitView) -> bool {
    exists|g: int| 0 <= g < mtps.len() && is_piece_of(#[trigger] mtps[g], segment)
}

/// The split patterns are pieces of the MTPs without gaps larger than
/// `max_ioi`, the longest first.
pub open spec fn are_splits_of(
    mtps: Seq<WindowedMtp>,
    max_ioi: i64,
    splits: Seq<SplitView>,
) -> bool {
    &&& forall|k: int|
        0 <= k < splits.len() ==> is_segment(#[trigger] splits[k], max_ioi) && is_piece_of_some(
            mtps,
            splits[k],
        )
    &&& forall|a: int, b: int|
        0 <= a < b < splits.len() ==> (#[trigger] splits[a]).0.len() >= (#[trigger] splits[b]).0.len()
}

/// The segments are those of the first `count` MTPs, one MTP after the
/// other: each MTP cut at every gap larger than `max_ioi`.
pub open spec fn are_segments_of(
    mtps: Seq<WindowedMtp>,
    max_ioi: i64,
    count: int,
    segments: Seq<SplitView>,
) -> bool
    decreases count,
{
    if count <= 0 {
        segments.len() == 0
    } else {
        exists|k: int|
            #![trigger segments.subrange(0, k)]
            0 <= k <= segments.len() && are_segments_of(
                mtps,
                max_ioi,
                count - 1,
                segments.subrange(0, k),
            ) && is_split_on_gaps(
                segments.subrange(k, segments.len() as int),
                mtps[count - 1].0.pattern@,
                mtps[count - 1].1@,
                mtps[count - 1].2@,
                max_ioi,
            )
    }
}

/// The segment at position `a` comes before the one at position `b` when
/// the longest come first: it is the longer one, or the two are equally
/// long and it is the earlier one.
pub open spec fn segment_before(segments: Seq<SplitView>, a: usize, b: usize) -> bool {
    segments[a as int].0.len() > segments[b as int].0.len() || (segments[a as int].0.len()
        == segments[b as int].0.len() && a < b)
}

/// The order lists the positions of the segments with the longest segment
/// first, and equally long segments in the order of their positions.
pub open spec fn is_length_order(segments: Seq<SplitView>, order: Seq<usize>) -> bool {
    &&& order.len() == segments.len()
    &&& forall|k: int| 0 <= k < order.len() ==> #[trigger] order[k] < segments.len()
    &&& forall|a: int, b: int|
        0 <= a < b < order.len() ==> segment_before(segments, #[trigger] order[a], #[trigger] order[b])
}

/// The split patterns are the segments of all the MTPs, the longest first
/// and equally long ones in the order of the MTPs and of the points.
pub open spec fn are_all_splits_of(
    mtps: Seq<WindowedMtp>,
    max_ioi: i64,
    splits: Seq<SplitView>,
) -> bool {
    exists|segments: Seq<SplitView>, order: Seq<usize>|
        #![trigger are_segments_of(mtps, max_ioi, mtps.len() as int, segments), is_length_order(segments, order)]
        are_segments_of(mtps, max_ioi, mtps.len() as int, segments) && is_length_order(
            segments,
            order,
        ) && splits.len() == order.len() && forall|k: int|
            0 <= k < splits.len() ==> #[trigger] splits[k] == segments[order[k] as int]
}

impl SiatecC {
    /// Partitions the forward diffs to MTPs and returns a vector of
    /// triples, where:
    /// 0. MTP
    /// 1. source indices: the indices that form the MTP
    /// 2. target indices: the indices of the points that form the
    ///    translated MTP
    ///
    /// The differences are sorted on the way.
    pub fn partition_to_mtps(point_set: &PointSet, forward_diffs: &mut Vec<(Point2Di64, IndPair)>) -> (mtps:
        Vec<WindowedMtp>)
        requires
            differences_fit(point_set@),
            old(forward_diffs)@.no_duplicates(),
            forall|k: int|
                0 <= k < old(forward_diffs)@.len() ==> is_forward_entry(
                    point_set@,
                    #[trigger] old(forward_diffs)@[k],
                ),
        ensures
            final(forward_diffs)@.to_multiset() == old(forward_diffs)@.to_multiset(),
            pair_entries_sorted(final(forward_diffs)@),
            are_mtps_of(point_set@, final(forward_diffs)@, mtps@),
    {
        proof {
            use_type_invariant(point_set);
        }
        let ghost points = point_set@;
        let ghost unsorted = forward_diffs@;
        // Sort and partition the diffs to find MTPs
        sort_with_ind_pairs(forward_diffs);
        let ghost entries = forward_diffs@;
        proof {
            lemma_sorted_round(points, unsorted, entries);
        }
        let groups = SiatecC::group_by_difference(point_set, i64::MAX, forward_diffs);
        let mut mtps: Vec<WindowedMtp> = Vec::with_capacity(groups.len());
        let mut g: usize = 0;
        while g < groups.len()
            invariant
                g <= groups@.len(),
                points == point_set@,
                is_grouping_of(points, i64::MAX, entries, groups@),
                mtps@.len() == g,
                forall|x: int|
                    0 <= x < g ==> is_windowed_mtp(points, #[trigger] mtps@[x]) && mtps@[x].1@.len()
                        == groups@[x].1@.len() && mtps@[x].0.translator == groups@[x].0,
                forall|x: int, k: int|
                    0 <= x < g && 0 <= k < groups@[x].1@.len() ==> (#[trigger] mtps@[x].1@[k])
                        == groups@[x].1@[k].0,
                forall|x: int, k: int|
                    0 <= x < g && 0 <= k < groups@[x].1@.len() ==> (#[trigger] mtps@[x].2@[k])
                        == groups@[x].1@[k].1,
            decreases groups@.len() - g,
        {
            let translator = groups[g].0;
            let pairs = &groups[g].1;
            let m = pairs.len();
            let mut source_indices: Vec<usize> = Vec::with_capacity(m);
            let mut target_indices: Vec<usize> = Vec::with_capacity(m);
            let mut k: usize = 0;
            while k < m
                invariant
                    k <= m,
                    m == pairs@.len(),
                    source_indices@.len() == k,
                    target_indices@.len() == k,
                    forall|x: int| 0 <= x < k ==> source_indices@[x] == pairs@[x].0,
                    forall|x: int| 0 <= x < k ==> target_indices@[x] == pairs@[x].1,
                decreases m - k,
            {
                source_indices.push(pairs[k].0);
                target_indices.push(pairs[k].1);
                k += 1;
            }
            proof {
                assert(is_index_group(points, i64::MAX, groups@[g as int]));
                assert forall|x: int| 0 <= x < source_indices@.len() implies source_indices@[x]
                    < points.len() by {
                    assert(is_windowed_entry(points, i64::MAX, (translator, pairs@[x])));
                }
            }
            let pattern = point_set.get_pattern(&source_indices);
            let ghost before = mtps@;
            mtps.push((Mtp { translator, pattern }, source_indices, target_indices));
            proof {
                let added = mtps@[g as int];
                assert forall|x: int| 0 <= x < added.1@.len() implies {
                    &&& (#[trigger] added.1@[x]) < added.2@[x]
                    &&& added.2@[x] < points.len()
                    &&& added.0.pattern@[x] == points[added.1@[x] as int]
                    &&& is_sum(
                        points[added.1@[x] as int],
                        added.0.translator,
                        points[added.2@[x] as int],
                    )
                } by {
                    assert(is_windowed_entry(points, i64::MAX, (translator, pairs@[x])));
                }
                assert forall|a: int, b: int| 0 <= a < b < added.1@.len() implies #[trigger] added.1@[a]
                    < #[trigger] added.1@[b] by {
                    assert(pairs@[a].0 < pairs@[b].0);
                }
                assert forall|x: int| 0 <= x < g + 1 implies is_windowed_mtp(
                    points,
                    #[trigger] mtps@[x],
                ) && mtps@[x].1@.len() == groups@[x].1@.len() && mtps@[x].0.translator
                    == groups@[x].0 by {
                    if x < g {
                        assert(mtps@[x] == before[x]);
                    }
                }
                assert forall|x: int, k: int|
                    0 <= x < g + 1 && 0 <= k < groups@[x].1@.len() implies (
                #[trigger] mtps@[x].1@[k]) == groups@[x].1@[k].0 by {
                    if x < g {
                        assert(mtps@[x] == before[x]);
                        assert(before[x].1@[k] == groups@[x].1@[k].0);
                    }
                }
                assert forall|x: int, k: int|
                    0 <= x < g + 1 && 0 <= k < groups@[x].1@.len() implies (
                #[trigger] mtps@[x].2@[k]) == groups@[x].1@[k].1 by {
                    if x < g {
                        assert(mtps@[x] == before[x]);
                        assert(before[x].2@[k] == groups@[x].1@[k].1);
                    }
                }
            }
            g += 1;
        }
        proof {
            assert forall|a: int, b: int| 0 <= a < b < mtps@.len() implies (
            #[trigger] mtps@[a]).0.translator.lex_lt((#[trigger] mtps@[b]).0.translator) by {
                assert(groups@[a].0.lex_lt(groups@[b].0));
            }
            assert forall|x: int| 0 <= x < entries.len() implies has_mtp_pair(
                mtps@,
                #[trigger] entries[x],
            ) by {
                lemma_entry_has_mtp_pair(points, entries, groups@, mtps@, x);
            }
            assert forall|g: int, k: int|
                0 <= g < mtps@.len() && 0 <= k < mtps@[g].1@.len() implies entries.contains(
                (mtps@[g].0.translator, (#[trigger] mtps@[g].1@[k], mtps@[g].2@[k])),
            ) by {
                assert(crate::discovery::siatec_c::comes_before(
                    entries,
                    entries.len() as int,
                    groups@[g].0,
                    groups@[g].1@[k],
                ));
                let y = choose|y: int|
                    0 <= y < entries.len() && #[trigger] entries[y] == (
                        groups@[g].0,
                        groups@[g].1@[k],
                    );
                assert(mtps@[g].1@[k] == groups@[g].1@[k].0);
                assert(mtps@[g].2@[k] == groups@[g].1@[k].1);
                assert(entries[y] == (mtps@[g].0.translator, (mtps@[g].1@[k], mtps@[g].2@[k])));
            }
        }
        mtps
    }

    /// Splits the MTPs and their associated source and target index
    /// vectors on gaps that exceed `max_ioi`. The returned vector is sorted
    /// in descending order of pattern size.
    pub fn split_mtps_on_ioi(mtps: &Vec<WindowedMtp>, max_ioi: i64) -> (split_mtps: Vec<SplitPattern>)
        requires
            forall|g: int|
                0 <= g < mtps@.len() ==> (#[trigger] mtps@[g]).1@.len() == mtps@[g].0.pattern@.len()
                    && mtps@[g].2@.len() == mtps@[g].0.pattern@.len(),
        ensures
            are_splits_of(mtps@, max_ioi, split_views(split_mtps@)),
            are_all_splits_of(mtps@, max_ioi, split_views(split_mtps@)),
    {
        let mut unsorted: Vec<SplitPattern> = Vec::new();
        let mut lengths: Vec<usize> = Vec::new();
        let mut g: usize = 0;
        proof {
            assert(split_views(unsorted@) =~= Seq::<SplitView>::empty());
        }
        while g < mtps.len()
            invariant
                g <= mtps@.len(),
                lengths@.len() == unsorted@.len(),
                are_segments_of(mtps@, max_ioi, g as int, split_views(unsorted@)),
                forall|g: int|
                    0 <= g < mtps@.len() ==> (#[trigger] mtps@[g]).1@.len()
                        == mtps@[g].0.pattern@.len() && mtps@[g].2@.len()
                        == mtps@[g].0.pattern@.len(),
                forall|k: int|
                    0 <= k < unsorted@.len() ==> is_segment(
                        split_view(#[trigger] unsorted@[k]),
                        max_ioi,
                    ) && is_piece_of_some(mtps@, split_view(unsorted@[k])) && lengths@[k]
                        == unsorted@[k].0@.len(),
            decreases mtps@.len() - g,
        {
            let mtp_triple = &mtps[g];
            let mut split = SiatecC::split_pattern_on_ioi_gaps(
                &mtp_triple.0.pattern,
                &mtp_triple.1,
                &mtp_triple.2,
                max_ioi,
            );
            let ghost pieces = split_views(split@);
            let ghost whole = split@;
            let ghost segments_before = split_views(unsorted@);
            let mut k: usize = 0;
            proof {
                assert(segments_before + pieces.subrange(0, 0) =~= segments_before);
            }
            while k < split.len()
                invariant
                    k <= split@.len(),
                    g < mtps@.len(),
                    whole == split@,
                    pieces == split_views(whole),
                    lengths@.len() == unsorted@.len(),
                    split_views(unsorted@) == segments_before + pieces.subrange(0, k as int),
                    is_split_on_gaps(
                        pieces,
                        mtps@[g as int].0.pattern@,
                        mtps@[g as int].1@,
                        mtps@[g as int].2@,
                        max_ioi,
                    ),
                    forall|x: int|
                        0 <= x < unsorted@.len() ==> is_segment(
                            split_view(#[trigger] unsorted@[x]),
                            max_ioi,
                        ) && is_piece_of_some(mtps@, split_view(unsorted@[x])) && lengths@[x]
                            == unsorted@[x].0@.len(),
                decreases split@.len() - k,
            {
                let piece = &split[k];
                let ghost before = unsorted@;
                let ghost lengths_before = lengths@;
                proof {
                    assert(pieces[k as int] == split_view(whole[k as int]));
                    assert(is_segment(pieces[k as int], max_ioi));
                    lemma_segment_is_piece(pieces, max_ioi, k as int);
                    lemma_piece_of_joined(mtps@[g as int], pieces, k as int);
                }
                lengths.push(piece.0.len());
                unsorted.push((piece.0.copy(), copy_indices(&piece.1), copy_indices(&piece.2)));
                proof {
                    assert(split_view(unsorted@[before.len() as int]) == pieces[k as int]);
                    assert(split_views(unsorted@) =~= split_views(before).push(pieces[k as int]));
                    assert(split_views(unsorted@) =~= segments_before + pieces.subrange(0, k + 1));
                    assert forall|x: int| 0 <= x < unsorted@.len() implies is_segment(
                        split_view(#[trigger] unsorted@[x]),
                        max_ioi,
                    ) && is_piece_of_some(mtps@, split_view(unsorted@[x])) && lengths@[x]
                        == unsorted@[x].0@.len() by {
                        if x < before.len() {
                            assert(unsorted@[x] == before[x]);
                            assert(lengths@[x] == lengths_before[x]);
                        }
                    }
                }
                k += 1;
            }
            proof {
                let segments = split_views(unsorted@);
                let cut = segments_before.len() as int;
                assert(pieces.subrange(0, k as int) =~= pieces);
                assert(segments.subrange(0, cut) =~= segments_before);
                assert(segments.subrange(cut, segments.len() as int) =~= pieces);
                assert(are_segments_of(mtps@, max_ioi, g + 1, segments));
            }
            g += 1;
        }
        let count = unsorted.len();
        let mut order = Siatec::all_positions(count);
        let ghost positions = order@;
        sort_positions_by_length(&mut order, &lengths);
        proof {
            lemma_positions_stay(positions, order@, count as int);
        }
        let mut split_mtps: Vec<SplitPattern> = Vec::with_capacity(count);
        let mut k: usize = 0;
        while k < count
            invariant
                k <= count,
                count == unsorted@.len(),
                order@.len() == count,
                lengths@.len() == count,
                split_mtps@.len() == k,
                forall|x: int| 0 <= x < count ==> #[trigger] order@[x] < count,
                order@.no_duplicates(),
                lengths_sorted(lengths@, order@),
                forall|x: int|
                    0 <= x < k ==> split_view(#[trigger] split_mtps@[x]) == split_view(
                        unsorted@[order@[x] as int],
                    ),
            decreases count - k,
        {
            let piece = &unsorted[order[k]];
            let ghost before = split_mtps@;
            split_mtps.push((piece.0.copy(), copy_indices(&piece.1), copy_indices(&piece.2)));
            proof {
                assert forall|x: int| 0 <= x < k + 1 implies split_view(#[trigger] split_mtps@[x])
                    == split_view(unsorted@[order@[x] as int]) by {
                    if x < k {
                        assert(split_mtps@[x] == before[x]);
                    }
                }
            }
            k += 1;
        }
        proof {
            let views = split_views(split_mtps@);
            assert forall|x: int| 0 <= x < views.len() implies is_segment(
                #[trigger] views[x],
                max_ioi,
            ) && is_piece_of_some(mtps@, views[x]) by {
                assert(views[x] == split_view(split_mtps@[x]));
                assert(order@[x] < count);
                assert(is_segment(split_view(unsorted@[order@[x] as int]), max_ioi));
            }
            assert forall|a: int, b: int| 0 <= a < b < views.len() implies (
            #[trigger] views[a]).0.len() >= (#[trigger] views[b]).0.len() by {
                assert(views[a] == split_view(split_mtps@[a]));
                assert(views[b] == split_view(split_mtps@[b]));
                assert(!longer_first(lengths@, order@[b], order@[a]));
                assert(lengths@[order@[a] as int] == unsorted@[order@[a] as int].0@.len());
                assert(lengths@[order@[b] as int] == unsorted@[order@[b] as int].0@.len());
            }
            let segments = split_views(unsorted@);
            assert forall|a: int, b: int| 0 <= a < b < order@.len() implies segment_before(
                segments,
                #[trigger] order@[a],
                #[trigger] order@[b],
            ) by {
                assert(!longer_first(lengths@, order@[b], order@[a]));
                assert(order@[a] != order@[b]);
                assert(order@[a] < count);
                assert(order@[b] < count);
                assert(lengths@[order@[a] as int] == unsorted@[order@[a] as int].0@.len());
                assert(lengths@[order@[b] as int] == unsorted@[order@[b] as int].0@.len());
                assert(segments[order@[a] as int] == split_view(unsorted@[order@[a] as int]));
                assert(segments[order@[b] as int] == split_view(unsorted@[order@[b] as int]));
            }
            assert(is_length_order(segments, order@));
            assert forall|k: int| 0 <= k < views.len() implies #[trigger] views[k]
                == segments[order@[k] as int] by {
                assert(views[k] == split_view(split_mtps@[k]));
                assert(order@[k] < count);
            }
            assert(are_segments_of(mtps@, max_ioi, mtps@.len() as int, segments));
        }
        split_mtps
    }

    /// Returns the first upper bounds of the windows: for each point its
    /// onset plus the maximal inter-onset interval.
    pub fn init_window_upper_bounds(&self, point_set: &PointSet) -> (window_bounds: Vec<i128>)
        ensures
            window_bounds@.len() == point_set@.len(),
            forall|i: int|
                0 <= i < point_set@.len() ==> #[trigger] window_bounds@[i] == point_set@[i].x
                    + self.max_ioi,
            bounds_in_range(window_bounds@),
    {
        let n = point_set.len();
        let mut window_bounds: Vec<i128> = Vec::with_capacity(n);
        let mut i: usize = 0;
        while i < n
            invariant
                i <= n,
                n == point_set@.len(),
                window_bounds@.len() == i,
                forall|k: int|
                    0 <= k < i ==> #[trigger] window_bounds@[k] == point_set@[k].x + self.max_ioi,
            decreases n - i,
        {
            let end = point_set[i].x as i128 + self.max_ioi as i128;
            window_bounds.push(end);
            i += 1;
        }
        window_bounds
    }

    /// Computes the forward difference vectors for all points, such that,
    /// the target points are all within a restricted size window. Each
    /// source point has its own window position, so that difference vectors
    /// of the same size are always computed during the same iteration.
    pub fn compute_forward_diffs_within_window(
        &self,
        point_set: &PointSet,
        target_indices: &mut Vec<usize>,
        window_bounds: &mut Vec<i128>,
    ) -> (forward_diffs: Vec<(Point2Di64, IndPair)>)
        requires
            self.max_ioi > 0,
            differences_fit(point_set@),
            old(target_indices)@.len() == point_set@.len(),
            old(window_bounds)@.len() == point_set@.len(),
            windows_begin_after(old(target_indices)@),
            bounds_in_range(old(window_bounds)@),
        ensures
            is_window_round(
                point_set@,
                self.max_ioi,
                old(target_indices)@,
                old(window_bounds)@,
                final(target_indices)@,
                final(window_bounds)@,
                forward_diffs@,
            ),
            windows_begin_after(final(target_indices)@),
            bounds_in_range(final(window_bounds)@),
    {
        proof {
            use_type_invariant(point_set);
        }
        let ghost points = point_set@;
        let ghost old_targets = target_indices@;
        let ghost old_bounds = window_bounds@;
        let max_ioi = self.max_ioi;
        let n = point_set.len();
        let mut forward_diffs: Vec<(Point2Di64, IndPair)> = Vec::new();
        if n == 0 {
            return forward_diffs;
        }
        let mut i: usize = 0;
        while i < n - 1
            invariant
                0 < n,
                i <= n - 1,
                n == points.len(),
                points == point_set@,
                max_ioi == self.max_ioi,
                max_ioi > 0,
                strictly_ascending(points),
                differences_fit(points),
                old_targets.len() == n,
                old_bounds.len() == n,
                windows_begin_after(old_targets),
                bounds_in_range(old_bounds),
                target_indices@.len() == n,
                window_bounds@.len() == n,
                windows_begin_after(target_indices@),
                bounds_in_range(window_bounds@),
                forall|s: int| i <= s < n ==> #[trigger] target_indices@[s] == old_targets[s],
                forall|s: int| i <= s < n ==> #[trigger] window_bounds@[s] == old_bounds[s],
                forall|s: int|
                    0 <= s < i ==> if window_open(n as int, s, old_targets[s]) {
                        window_advanced(
                            points,
                            max_ioi,
                            s,
                            old_targets[s],
                            old_bounds[s],
                            #[trigger] target_indices@[s],
                            window_bounds@[s],
                        )
                    } else {
                        target_indices@[s] == old_targets[s] && window_bounds@[s] == old_bounds[s]
                    },
                forall|k: int|
                    0 <= k < forward_diffs@.len() ==> is_forward_entry(
                        points,
                        #[trigger] forward_diffs@[k],
                    ) && forward_diffs@[k].1.0 < i && in_window(
                        forward_diffs@[k].1.0 as int,
                        forward_diffs@[k].1.1 as int,
                        old_targets[forward_diffs@[k].1.0 as int] as int,
                        target_indices@[forward_diffs@[k].1.0 as int] as int,
                    ),
                forall|s: int, j: int|
                    0 <= s < i && #[trigger] in_window(
                        s,
                        j,
                        old_targets[s] as int,
                        target_indices@[s] as int,
                    ) ==> has_pair_entry(forward_diffs@, s, j),
                forall|a: int, b: int|
                    0 <= a < b < forward_diffs@.len() ==> pair_generated_before(
                        (#[trigger] forward_diffs@[a]).1,
                        (#[trigger] forward_diffs@[b]).1,
                    ),
            decreases n - 1 - i,
        {
            let from = point_set[i];
            let target_index = target_indices[i];
            if target_index < n {
                let bound = window_bounds[i];
                let ghost before_source = forward_diffs@;
                let mut window_exceeds_data = true;
                let mut j: usize = target_index;
                while j < n && window_exceeds_data
                    invariant
                        i < n - 1,
                        target_index <= j <= n,
                        i <= target_index,
                        n == points.len(),
                        points == point_set@,
                        from == points[i as int],
                        strictly_ascending(points),
                        differences_fit(points),
                        !window_exceeds_data ==> j < n && j != i && points[j as int].x > bound,
                        forall|x: int|
                            in_window(i as int, x, target_index as int, j as int) ==> (
                            #[trigger] points[x]).x <= bound,
                        forward_diffs@.len() >= before_source.len(),
                        forall|k: int|
                            0 <= k < before_source.len() ==> #[trigger] forward_diffs@[k]
                                == before_source[k],
                        forall|k: int|
                            before_source.len() <= k < forward_diffs@.len() ==> is_forward_entry(
                                points,
                                #[trigger] forward_diffs@[k],
                            ) && forward_diffs@[k].1.0 == i && in_window(
                                i as int,
                                forward_diffs@[k].1.1 as int,
                                target_index as int,
                                j as int,
                            ),
                        forall|x: int|
                            #[trigger] in_window(i as int, x, target_index as int, j as int)
                                ==> has_pair_entry(forward_diffs@, i as int, x),
                        forall|a: int, b: int|
                            before_source.len() <= a < b < forward_diffs@.len()
                                ==> pair_generated_before(
                                (#[trigger] forward_diffs@[a]).1,
                                (#[trigger] forward_diffs@[b]).1,
                            ),
                    decreases n - j, window_exceeds_data as int,
                {
                    if i == j {
                        j += 1;
                    } else {
                        let to = point_set[j];
                        let onset = to.x as i128;
                        if onset > bound {
                            window_exceeds_data = false;
                        } else {
                            assert(points[j as int].can_sub(points[i as int]));
                            let diff = to - from;
                            let ghost before = forward_diffs@;
                            forward_diffs.push((diff, (i, j)));
                            proof {
                                assert forall|x: int| #[trigger]
                                    in_window(
                                        i as int,
                                        x,
                                        target_index as int,
                                        j + 1,
                                    ) implies has_pair_entry(forward_diffs@, i as int, x) by {
                                    if x < j {
                                        assert(in_window(i as int, x, target_index as int, j as int));
                                        assert(has_pair_entry(before, i as int, x));
                                        let y = choose|y: int|
                                            0 <= y < before.len() && (#[trigger] before[y]).1.0 == i
                                                && before[y].1.1 == x;
                                        assert(forward_diffs@[y] == before[y]);
                                    } else {
                                        assert(forward_diffs@[before.len() as int].1 == (i, j));
                                    }
                                }
                            }
                            j += 1;
                        }
                    }
                }
                let ghost targets_before = target_indices@;
                let ghost bounds_before = window_bounds@;
                if window_exceeds_data {
                    // The end of the window extends beyond the points in
                    // the data set, so there are no more windows to handle
                    // from the starting index.
                    target_indices[i] = n;
                } else {
                    target_indices[i] = j;
                    window_bounds[i] = bound + max_ioi as i128;
                }
                proof {
                    assert(window_advanced(
                        points,
                        max_ioi,
                        i as int,
                        old_targets[i as int],
                        old_bounds[i as int],
                        target_indices@[i as int],
                        window_bounds@[i as int],
                    ));
                    assert forall|s: int| 0 <= s < i + 1 implies if window_open(
                        n as int,
                        s,
                        old_targets[s],
                    ) {
                        window_advanced(
                            points,
                            max_ioi,
                            s,
                            old_targets[s],
                            old_bounds[s],
                            #[trigger] target_indices@[s],
                            window_bounds@[s],
                        )
                    } else {
                        target_indices@[s] == old_targets[s] && window_bounds@[s] == old_bounds[s]
                    } by {
                        if s < i {
                            assert(target_indices@[s] == targets_before[s]);
                            assert(window_bounds@[s] == bounds_before[s]);
                        }
                    }
                    assert forall|k: int| 0 <= k < forward_diffs@.len() implies is_forward_entry(
                        points,
                        #[trigger] forward_diffs@[k],
                    ) && forward_diffs@[k].1.0 < i + 1 && in_window(
                        forward_diffs@[k].1.0 as int,
                        forward_diffs@[k].1.1 as int,
                        old_targets[forward_diffs@[k].1.0 as int] as int,
                        target_indices@[forward_diffs@[k].1.0 as int] as int,
                    ) by {
                        if k < before_source.len() {
                            assert(forward_diffs@[k] == before_source[k]);
                            let s = before_source[k].1.0 as int;
                            assert(target_indices@[s] == targets_before[s]);
                        }
                    }
                    assert forall|s: int, x: int|
                        0 <= s < i + 1 && #[trigger] in_window(
                            s,
                            x,
                            old_targets[s] as int,
                            target_indices@[s] as int,
                        ) implies has_pair_entry(forward_diffs@, s, x) by {
                        if s < i {
                            assert(target_indices@[s] == targets_before[s]);
                            assert(in_window(s, x, old_targets[s] as int, targets_before[s] as int));
                            assert(has_pair_entry(before_source, s, x));
                            let y = choose|y: int|
                                0 <= y < before_source.len() && (#[trigger] before_source[y]).1.0
                                    == s && before_source[y].1.1 == x;
                            assert(forward_diffs@[y] == before_source[y]);
                        } else {
                            assert(in_window(i as int, x, target_index as int, j as int));
                        }
                    }
                    assert forall|a: int, b: int|
                        0 <= a < b < forward_diffs@.len() implies pair_generated_before(
                        (#[trigger] forward_diffs@[a]).1,
                        (#[trigger] forward_diffs@[b]).1,
                    ) by {
                        if b < before_source.len() {
                            assert(forward_diffs@[a] == before_source[a]);
                            assert(forward_diffs@[b] == before_source[b]);
                            assert(pair_generated_before(before_source[a].1, before_source[b].1));
                        } else if a < before_source.len() {
                            assert(forward_diffs@[a] == before_source[a]);
                        }
                    }
                    assert forall|s: int| 0 <= s < n implies -bound_limit()
                        <= #[trigger] window_bounds@[s] <= bound_limit() by {
                        if s != i {
                            assert(window_bounds@[s] == bounds_before[s]);
                        } else {
                            assert(-bound_limit() <= bounds_before[i as int] <= bound_limit());
                        }
                    }
                    assert forall|s: int| i + 1 <= s < n implies #[trigger] target_indices@[s]
                        == old_targets[s] by {
                        assert(target_indices@[s] == targets_before[s]);
                    }
                    assert forall|s: int| i + 1 <= s < n implies #[trigger] window_bounds@[s]
                        == old_bounds[s] by {
                        assert(window_bounds@[s] == bounds_before[s]);
                    }
                    assert forall|s: int| 0 <= s < n implies s <= #[trigger] target_indices@[s] by {
                        if s != i {
                            assert(target_indices@[s] == targets_before[s]);
                        }
                    }
                }
            }
            i += 1;
        }
        forward_diffs
    }
}

/// Returns a copy of the given indices.
pub fn copy_indices(indices: &Vec<usize>) -> (copy: Vec<usize>)
    ensures
        copy@ == indices@,
{
    let mut copy: Vec<usize> = Vec::with_capacity(indices.len());
    let mut i: usize = 0;
    while i < indices.len()
        invariant
            i <= indices@.len(),
            copy@.len() == i,
            forall|k: int| 0 <= k < i ==> copy@[k] == indices@[k],
        decreases indices@.len() - i,
    {
        copy.push(indices[i]);
        i += 1;
    }
    assert(copy@ == indices@);
    copy
}

/// Sorting the entries of one round gives a valid difference list.
proof fn lemma_sorted_round(
    points: Seq<Point2Di64>,
    unsorted: Seq<(Point2Di64, IndPair)>,
    sorted: Seq<(Point2Di64, IndPair)>,
)
    requires
        strictly_ascending(points),
        differences_fit(points),
        unsorted.no_duplicates(),
        sorted.to_multiset() == unsorted.to_multiset(),
        pair_entries_sorted(sorted),
        forall|e: (Point2Di64, IndPair)| sorted.contains(e) <==> unsorted.contains(e),
        forall|k: int| 0 <= k < unsorted.len() ==> is_forward_entry(points, #[trigger] unsorted[k]),
    ensures
        is_valid_diff_list(points, i64::MAX, sorted),
{
    unsorted.lemma_multiset_has_no_duplicates();
    sorted.lemma_multiset_has_no_duplicates_conv();
    assert forall|k: int| 0 <= k < sorted.len() implies is_windowed_entry(
        points,
        i64::MAX,
        #[trigger] sorted[k],
    ) by {
        assert(sorted.contains(sorted[k]));
        let m = choose|m: int| 0 <= m < unsorted.len() && unsorted[m] == sorted[k];
        assert(is_forward_entry(points, unsorted[m]));
        assert(points[sorted[k].1.1 as int].can_sub(points[sorted[k].1.0 as int]));
    }
    assert forall|a: int, b: int| 0 <= a < b < sorted.len() implies pair_entry_lt(
        #[trigger] sorted[a],
        #[trigger] sorted[b],
    ) by {
        assert(!pair_entry_lt(sorted[b], sorted[a]));
        assert(sorted[a] != sorted[b]);
        assert(is_windowed_entry(points, i64::MAX, sorted[a]));
        assert(is_windowed_entry(points, i64::MAX, sorted[b]));
        if sorted[a].0 == sorted[b].0 && sorted[a].1.0 == sorted[b].1.0 {
            let x = sorted[a].1.1 as int;
            let y = sorted[b].1.1 as int;
            if x < y {
                assert(points[x].lex_lt(points[y]));
            } else if y < x {
                assert(points[y].lex_lt(points[x]));
            }
        }
    }
}

/// Every entry is held by the MTP made from the group of its difference.
proof fn lemma_entry_has_mtp_pair(
    points: Seq<Point2Di64>,
    entries: Seq<(Point2Di64, IndPair)>,
    groups: Seq<(Point2Di64, Vec<IndPair>)>,
    mtps: Seq<WindowedMtp>,
    x: int,
)
    requires
        strictly_ascending(points),
        is_valid_diff_list(points, i64::MAX, entries),
        is_grouping_of(points, i64::MAX, entries, groups),
        mtps.len() == groups.len(),
        forall|g: int|
            0 <= g < mtps.len() ==> (#[trigger] mtps[g]).1@.len() == groups[g].1@.len()
                && mtps[g].0.translator == groups[g].0,
        forall|g: int, k: int|
            0 <= g < mtps.len() && 0 <= k < groups[g].1@.len() ==> (#[trigger] mtps[g].1@[k])
                == groups[g].1@[k].0,
        forall|g: int, k: int|
            0 <= g < mtps.len() && 0 <= k < groups[g].1@.len() ==> (#[trigger] mtps[g].2@[k])
                == groups[g].1@[k].1,
        0 <= x < entries.len(),
    ensures
        has_mtp_pair(mtps, entries[x]),
{
    assert(crate::discovery::siatec_c::has_indexed_pair(
        groups,
        entries[x].1.0 as int,
        entries[x].1.1 as int,
    ));
    let (g, k) = choose|g: int, k: int|
        0 <= g < groups.len() && 0 <= k < groups[g].1@.len() && (#[trigger] groups[g].1@[k]).0
            == entries[x].1.0 as int && groups[g].1@[k].1 == entries[x].1.1 as int;
    assert(is_index_group(points, i64::MAX, groups[g]));
    assert(is_windowed_entry(points, i64::MAX, (groups[g].0, groups[g].1@[k])));
    assert(is_windowed_entry(points, i64::MAX, entries[x]));
    assert(groups[g].0 == entries[x].0);
    assert(mtps[g].1@[k] == groups[g].1@[k].0);
    assert(mtps[g].2@[k] == groups[g].1@[k].1);
    assert(mtps[g].0.translator == entries[x].0);
}

/// What sorting does to the positions `0` to `count - 1`: they all stay
/// within the range, each once.
proof fn lemma_positions_stay(positions: Seq<usize>, order: Seq<usize>, count: int)
    requires
        positions.len() == count,
        forall|k: int| 0 <= k < count ==> positions[k] == k,
        order.len() == positions.len(),
        forall|p: usize| order.contains(p) <==> positions.contains(p),
        positions.no_duplicates() ==> order.no_duplicates(),
    ensures
        order.len() == count,
        order.no_duplicates(),
        forall|x: int| 0 <= x < count ==> #[trigger] order[x] < count,
{
    assert(positions.no_duplicates());
    assert forall|x: int| 0 <= x < count implies #[trigger] order[x] < count by {
        assert(order.contains(order[x]));
        let k = choose|k: int| 0 <= k < positions.len() && positions[k] == order[x];
    }
}

/// The number of points in the segments before position `k`.
pub open spec fn offset_of(segments: Seq<SplitView>, k: int) -> int {
    joined_points(segments.subrange(0, k)).len() as int
}

/// The segment at position `k` lies in the joined segments at its offset,
/// in the points and in both index lists.
proof fn lemma_segment_is_piece(segments: Seq<SplitView>, max_ioi: i64, k: int)
    requires
        0 <= k < segments.len(),
        forall|x: int| 0 <= x < segments.len() ==> is_segment(#[trigger] segments[x], max_ioi),
    ensures
        0 <= offset_of(segments, k),
        offset_of(segments, k) + segments[k].0.len() <= joined_points(segments).len(),
        joined_points(segments).len() == joined_sources(segments).len(),
        joined_points(segments).len() == joined_targets(segments).len(),
        joined_points(segments).subrange(
            offset_of(segments, k),
            offset_of(segments, k) + segments[k].0.len(),
        ) == segments[k].0,
        joined_sources(segments).subrange(
            offset_of(segments, k),
            offset_of(segments, k) + segments[k].0.len(),
        ) == segments[k].1,
        joined_targets(segments).subrange(
            offset_of(segments, k),
            offset_of(segments, k) + segments[k].0.len(),
        ) == segments[k].2,
    decreases segments.len(),
{
    let rest = segments.drop_last();
    let last = segments.last();
    assert(is_segment(last, max_ioi));
    lemma_joined_lengths(rest, max_ioi);
    if k == segments.len() - 1 {
        assert(segments.subrange(0, k) =~= rest);
        assert(joined_points(segments).subrange(
            offset_of(segments, k),
            offset_of(segments, k) + last.0.len(),
        ) =~= last.0);
        assert(joined_sources(segments).subrange(
            offset_of(segments, k),
            offset_of(segments, k) + last.0.len(),
        ) =~= last.1);
        assert(joined_targets(segments).subrange(
            offset_of(segments, k),
            offset_of(segments, k) + last.0.len(),
        ) =~= last.2);
    } else {
        assert forall|x: int| 0 <= x < rest.len() implies is_segment(#[trigger] rest[x], max_ioi) by {
            assert(rest[x] == segments[x]);
        }
        lemma_segment_is_piece(rest, max_ioi, k);
        assert(rest.subrange(0, k) =~= segments.subrange(0, k));
        assert(rest[k] == segments[k]);
        let o = offset_of(segments, k);
        let len = segments[k].0.len() as int;
        assert(joined_points(segments).subrange(o, o + len) =~= joined_points(rest).subrange(
            o,
            o + len,
        ));
        assert(joined_sources(segments).subrange(o, o + len) =~= joined_sources(rest).subrange(
            o,
            o + len,
        ));
        assert(joined_targets(segments).subrange(o, o + len) =~= joined_targets(rest).subrange(
            o,
            o + len,
        ));
    }
}

/// The joined points and index lists of segments are equally long.
proof fn lemma_joined_lengths(segments: Seq<SplitView>, max_ioi: i64)
    requires
        forall|x: int| 0 <= x < segments.len() ==> is_segment(#[trigger] segments[x], max_ioi),
    ensures
        joined_points(segments).len() == joined_sources(segments).len(),
        joined_points(segments).len() == joined_targets(segments).len(),
    decreases segments.len(),
{
    if segments.len() > 0 {
        let rest = segments.drop_last();
        assert forall|x: int| 0 <= x < rest.len() implies is_segment(#[trigger] rest[x], max_ioi) by {
            assert(rest[x] == segments[x]);
        }
        lemma_joined_lengths(rest, max_ioi);
        assert(is_segment(segments.last(), max_ioi));
    }
}

/// A segment of the split of an MTP is a piece of the MTP.
proof fn lemma_piece_of_joined(mtp: WindowedMtp, segments: Seq<SplitView>, k: int)
    requires
        0 <= k < segments.len(),
        joined_points(segments) == mtp.0.pattern@,
        joined_sources(segments) == mtp.1@,
        joined_targets(segments) == mtp.2@,
        0 <= offset_of(segments, k),
        offset_of(segments, k) + segments[k].0.len() <= joined_points(segments).len(),
        joined_points(segments).subrange(
            offset_of(segments, k),
            offset_of(segments, k) + segments[k].0.len(),
        ) == segments[k].0,
        joined_sources(segments).subrange(
            offset_of(segments, k),
            offset_of(segments, k) + segments[k].0.len(),
        ) == segments[k].1,
        joined_targets(segments).subrange(
            offset_of(segments, k),
            offset_of(segments, k) + segments[k].0.len(),
        ) == segments[k].2,
    ensures
        is_piece_of(mtp, segments[k]),
{
    let offset = offset_of(segments, k);
    assert(segments[k].0 == mtp.0.pattern@.subrange(offset, offset + segments[k].0.len()));
}

} // verus!
