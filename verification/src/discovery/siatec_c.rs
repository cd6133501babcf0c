//! The SIATEC-C algorithm: translational equivalence classes of patterns
//! whose neighbouring points lie within a maximal inter-onset interval.

use crate::discovery::algorithm::is_extended_by;
use crate::discovery::algorithm::TecAlgorithm;
use crate::discovery::algorithm::TecCollector;
use crate::discovery::algorithm::TecOutput;
use crate::discovery::siatec::Siatec;
use crate::discovery::utilities::pair_entries_sorted;
use crate::discovery::utilities::pair_entry_lt;
use crate::discovery::utilities::sort_with_ind_pairs;
use crate::point_set::mtp::translated_in;
use crate::point_set::pattern::can_vectorize;
use crate::point_set::pattern::vectorized;
use crate::point_set::pattern::Pattern;
use crate::point_set::point::is_diff;
use crate::point_set::point::is_sum;
use crate::point_set::point::Point;
use crate::point_set::point::Point2Di64;
use crate::point_set::set::differences_fit;
use crate::point_set::set::strictly_ascending;
use crate::point_set::set::PointSet;
use crate::discovery::windows::are_all_splits_of;
use crate::discovery::windows::are_mtps_of;
use crate::discovery::windows::are_splits_of;
use crate::discovery::windows::bounds_in_range;
use crate::discovery::windows::is_piece_of;
use crate::discovery::windows::is_piece_of_some;
use crate::discovery::windows::is_window_round;
use crate::discovery::windows::is_windowed_mtp;
use crate::discovery::windows::window_advanced;
use crate::discovery::windows::window_open;
use crate::discovery::windows::windows_begin_after;
use crate::discovery::windows::WindowedMtp;
use crate::point_set::tec::is_full_tec_in;
use crate::point_set::tec::is_tec_in;
use crate::point_set::tec::is_translator_of;
use crate::point_set::tec::tec_views;
use crate::point_set::tec::Tec;
use crate::point_set::tec::TecView;
use vstd::prelude::*;

verus! {

/// The indices of two points of the point set: that of the point a
/// difference starts from, and that of the point it leads to.
pub type IndPair = (usize, usize);

/// A pattern together with, for each of its points, the index of the point
/// in the point set and the index of the point that it is translated onto.
pub type SplitPattern = (Pattern, Vec<usize>, Vec<usize>);

/// What a split pattern is in contracts: its points and the two index
/// lists.
pub type SplitView = (Seq<Point2Di64>, Seq<usize>, Seq<usize>);

/// The inter-onset interval from `a` to `b`: the difference of the first
/// components.
pub open spec fn ioi_between(a: Point2Di64, b: Point2Di64) -> int {
    b.x - a.x
}

/// No two neighbours in `points` are further apart in onset than
/// `max_ioi`.
pub open spec fn gaps_within(points: Seq<Point2Di64>, max_ioi: i64) -> bool {
    forall|i: int|
        0 <= i < points.len() - 1 ==> ioi_between(points[i], #[trigger] points[i + 1]) <= max_ioi
}

/// The view of a split pattern.
pub open spec fn split_view(split: SplitPattern) -> SplitView {
    (split.0@, split.1@, split.2@)
}

/// The views of the given split patterns, in the same order.
pub open spec fn split_views(splits: Seq<SplitPattern>) -> Seq<SplitView> {
    Seq::new(splits.len(), |k: int| split_view(splits[k]))
}

/// The points of all segments, one segment after the other.
pub open spec fn joined_points(segments: Seq<SplitView>) -> Seq<Point2Di64>
    decreases segments.len(),
{
    if segments.len() == 0 {
        Seq::empty()
    } else {
        joined_points(segments.drop_last()) + segments.last().0
    }
}

/// The source indices of all segments, one segment after the other.
pub open spec fn joined_sources(segments: Seq<SplitView>) -> Seq<usize>
    decreases segments.len(),
{
    if segments.len() == 0 {
        Seq::empty()
    } else {
        joined_sources(segments.drop_last()) + segments.last().1
    }
}

/// The target indices of all segments, one segment after the other.
pub open spec fn joined_targets(segments: Seq<SplitView>) -> Seq<usize>
    decreases segments.len(),
{
    if segments.len() == 0 {
        Seq::empty()
    } else {
        joined_targets(segments.drop_last()) + segments.last().2
    }
}

/// The segment is not empty, holds an index pair for each point, and has
/// no gap larger than `max_ioi`.
pub open spec fn is_segment(segment: SplitView, max_ioi: i64) -> bool {
    &&& segment.0.len() > 0
    &&& segment.1.len() == segment.0.len()
    &&& segment.2.len() == segment.0.len()
    &&& gaps_within(segment.0, max_ioi)
}

/// The segments are the pattern cut at every gap larger than `max_ioi`,
/// with the index lists cut at the same places.
pub open spec fn is_split_on_gaps(
    segments: Seq<SplitView>,
    pattern: Seq<Point2Di64>,
    sources: Seq<usize>,
    targets: Seq<usize>,
    max_ioi: i64,
) -> bool {
    &&& joined_points(segments) == pattern
    &&& joined_sources(segments) == sources
    &&& joined_targets(segments) == targets
    &&& forall|k: int| 0 <= k < segments.len() ==> is_segment(#[trigger] segments[k], max_ioi)
    &&& forall|k: int|
        0 <= k < segments.len() - 1 ==> ioi_between(
            segments[k].0.last(),
            (#[trigger] segments[k + 1]).0.first(),
        ) > max_ioi
}

/// The component of an index pair that is looked for when pairs are
/// matched: the source when matching forward, the target when matching
/// backward.
pub open spec fn tested(pair: IndPair, forward: bool) -> usize {
    if forward {
        pair.0
    } else {
        pair.1
    }
}

/// The component of an index pair that a match yields: the target when
/// matching forward, the source when matching backward.
pub open spec fn yielded(pair: IndPair, forward: bool) -> usize {
    if forward {
        pair.1
    } else {
        pair.0
    }
}

/// One of the pairs yields the index.
pub open spec fn is_yielded_from(pairs: Seq<IndPair>, forward: bool, index: usize) -> bool {
    exists|y: int| 0 <= y < pairs.len() && yielded(#[trigger] pairs[y], forward) == index
}

/// Both components of the pairs are strictly ascending.
pub open spec fn pairs_ascending(pairs: Seq<IndPair>) -> bool {
    forall|a: int, b: int|
        0 <= a < b < pairs.len() ==> (#[trigger] pairs[a]).0 < (#[trigger] pairs[b]).0
            && pairs[a].1 < pairs[b].1
}

/// The indices are strictly ascending.
pub open spec fn indices_ascending(indices: Seq<usize>) -> bool {
    forall|a: int, b: int| 0 <= a < b < indices.len() ==> #[trigger] indices[a] < #[trigger] indices[b]
}

/// What matching yields: for each pair whose tested component is among
/// `indices`, its other component, in the order of the pairs.
pub open spec fn matched(indices: Seq<usize>, pairs: Seq<IndPair>, forward: bool) -> Seq<usize>
    decreases pairs.len(),
{
    if pairs.len() == 0 {
        Seq::empty()
    } else if indices.contains(tested(pairs.last(), forward)) {
        matched(indices, pairs.drop_last(), forward).push(yielded(pairs.last(), forward))
    } else {
        matched(indices, pairs.drop_last(), forward)
    }
}

/// The entry holds the difference between two points of the set, the
/// second after the first and at most `max_ioi` later in onset.
pub open spec fn is_windowed_entry(
    points: Seq<Point2Di64>,
    max_ioi: i64,
    entry: (Point2Di64, IndPair),
) -> bool {
    &&& entry.1.0 < entry.1.1 < points.len()
    &&& is_diff(points[entry.1.1 as int], points[entry.1.0 as int], entry.0)
    &&& ioi_between(points[entry.1.0 as int], points[entry.1.1 as int]) <= max_ioi
}

/// Some entry holds the index pair `(i, j)`.
pub open spec fn has_pair_entry(entries: Seq<(Point2Di64, IndPair)>, i: int, j: int) -> bool {
    exists|x: int|
        0 <= x < entries.len() && (#[trigger] entries[x]).1.0 == i && entries[x].1.1 == j
}

/// The entries come in ascending order of difference and source index,
/// no two with the same difference and source index.
pub open spec fn pair_entries_ascending(entries: Seq<(Point2Di64, IndPair)>) -> bool {
    forall|i: int, j: int|
        0 <= i < j < entries.len() ==> pair_entry_lt(#[trigger] entries[i], #[trigger] entries[j])
}

/// The entries come in ascending order, and each holds the difference
/// between two points of the set, the second after the first and at most
/// `max_ioi` later in onset.
pub open spec fn is_valid_diff_list(
    points: Seq<Point2Di64>,
    max_ioi: i64,
    entries: Seq<(Point2Di64, IndPair)>,
) -> bool {
    &&& pair_entries_ascending(entries)
    &&& forall|k: int|
        0 <= k < entries.len() ==> is_windowed_entry(points, max_ioi, #[trigger] entries[k])
}

/// The entries hold, in the order of the points, the differences between
/// all pairs of points of which the second comes after the first and at
/// most `max_ioi` later in onset.
pub open spec fn is_generated_diff_list(
    points: Seq<Point2Di64>,
    max_ioi: i64,
    entries: Seq<(Point2Di64, IndPair)>,
) -> bool {
    &&& forall|k: int|
        0 <= k < entries.len() ==> is_windowed_entry(points, max_ioi, #[trigger] entries[k])
    &&& forall|a: int, b: int|
        0 <= a < b < entries.len() ==> pair_generated_before(
            (#[trigger] entries[a]).1,
            (#[trigger] entries[b]).1,
        )
    &&& forall|i: int, j: int|
        0 <= i < j < points.len() && ioi_between(points[i], points[j]) <= max_ioi
            ==> #[trigger] has_pair_entry(entries, i, j)
}

/// The index holds the entries grouped by difference: the groups come in
/// ascending order of their differences, each holds the index pairs of the
/// entries with its difference, in ascending order, and no entry is left
/// out.
pub open spec fn is_grouping_of(
    points: Seq<Point2Di64>,
    max_ioi: i64,
    entries: Seq<(Point2Di64, IndPair)>,
    index: Seq<(Point2Di64, Vec<IndPair>)>,
) -> bool {
    &&& groups_ascending(index)
    &&& forall|g: int| 0 <= g < index.len() ==> is_index_group(points, max_ioi, #[trigger] index[g])
    &&& forall|g: int|
        0 <= g < index.len() ==> has_diff_before(
            entries,
            entries.len() as int,
            (#[trigger] index[g]).0,
        )
    &&& entries_indexed_up_to(entries, entries.len() as int, index)
    &&& groups_from_entries(entries, entries.len() as int, index)
}

/// The entries are, in ascending order, the differences between all pairs
/// of points of which the second comes after the first and at most
/// `max_ioi` later in onset.
pub open spec fn is_windowed_diff_list(
    points: Seq<Point2Di64>,
    max_ioi: i64,
    entries: Seq<(Point2Di64, IndPair)>,
) -> bool {
    &&& is_valid_diff_list(points, max_ioi, entries)
    &&& forall|i: int, j: int|
        0 <= i < j < points.len() && ioi_between(points[i], points[j]) <= max_ioi
            ==> #[trigger] has_pair_entry(entries, i, j)
}

/// Some group of the index holds the index pair `(i, j)`.
pub open spec fn has_indexed_pair(index: Seq<(Point2Di64, Vec<IndPair>)>, i: int, j: int) -> bool {
    exists|g: int, k: int|
        0 <= g < index.len() && 0 <= k < index[g].1@.len() && (#[trigger] index[g].1@[k]).0 == i
            && index[g].1@[k].1 == j
}

/// The groups of the index come in ascending order of their differences.
pub open spec fn groups_ascending(index: Seq<(Point2Di64, Vec<IndPair>)>) -> bool {
    forall|a: int, b: int|
        0 <= a < b < index.len() ==> (#[trigger] index[a]).0.lex_lt((#[trigger] index[b]).0)
}

/// The index holds, grouped by difference, the index pairs of all pairs of
/// points of which the second comes after the first and at most `max_ioi`
/// later in onset. The groups come in ascending order of their
/// differences, the pairs of a group in ascending order.
pub open spec fn is_diff_index(
    points: Seq<Point2Di64>,
    max_ioi: i64,
    index: Seq<(Point2Di64, Vec<IndPair>)>,
) -> bool {
    &&& groups_ascending(index)
    &&& forall|g: int| 0 <= g < index.len() ==> is_index_group(points, max_ioi, #[trigger] index[g])
    &&& forall|i: int, j: int|
        0 <= i < j < points.len() && ioi_between(points[i], points[j]) <= max_ioi
            ==> #[trigger] has_indexed_pair(index, i, j)
}

/// The group holds at least one pair, each of its pairs has the group's
/// difference, and the pairs are in ascending order.
pub open spec fn is_index_group(
    points: Seq<Point2Di64>,
    max_ioi: i64,
    group: (Point2Di64, Vec<IndPair>),
) -> bool {
    &&& group.1@.len() > 0
    &&& pairs_ascending(group.1@)
    &&& forall|k: int|
        0 <= k < group.1@.len() ==> is_windowed_entry(
            points,
            max_ioi,
            (group.0, #[trigger] group.1@[k]),
        )
}

/// The point `b` lies relative to `a` as `d` lies relative to `c`.
pub open spec fn same_offset(a: Point2Di64, b: Point2Di64, c: Point2Di64, d: Point2Di64) -> bool {
    b.x - a.x == d.x - c.x && b.y - a.y == d.y - c.y
}

/// Some pair of `pairs` is `(i, j)`.
pub open spec fn has_pair(pairs: Seq<IndPair>, i: int, j: int) -> bool {
    exists|k: int| 0 <= k < pairs.len() && (#[trigger] pairs[k]).0 == i && pairs[k].1 == j
}

/// The pairs are, in ascending order, the index pairs of all pairs of
/// points of which the second lies relative to the first as `to` lies
/// relative to `from`.
pub open spec fn is_step_group(
    points: Seq<Point2Di64>,
    from: Point2Di64,
    to: Point2Di64,
    pairs: Seq<IndPair>,
) -> bool {
    &&& pairs_ascending(pairs)
    &&& forall|k: int|
        0 <= k < pairs.len() ==> (#[trigger] pairs[k]).0 < points.len() && pairs[k].1
            < points.len() && same_offset(
            points[pairs[k].0 as int],
            points[pairs[k].1 as int],
            from,
            to,
        )
    &&& forall|i: int, j: int|
        0 <= i < points.len() && 0 <= j < points.len() && same_offset(points[i], points[j], from, to)
            ==> #[trigger] has_pair(pairs, i, j)
}

/// Each of `steps` is the step group for one pair of neighbours in the
/// pattern.
pub open spec fn are_steps_of(
    points: Seq<Point2Di64>,
    pattern: Seq<Point2Di64>,
    steps: Seq<&Vec<IndPair>>,
) -> bool {
    &&& steps.len() == pattern.len() - 1
    &&& forall|k: int|
        0 <= k < steps.len() ==> is_step_group(
            points,
            pattern[k],
            pattern[k + 1],
            (#[trigger] steps[k])@,
        )
}

/// Some point of the set lies relative to `to` as `p` lies relative to
/// `from`.
pub open spec fn shifted_in(
    points: Seq<Point2Di64>,
    p: Point2Di64,
    from: Point2Di64,
    to: Point2Di64,
) -> bool {
    exists|r: int| 0 <= r < points.len() && same_offset(p, #[trigger] points[r], from, to)
}

/// Moving the point at position `k` of the pattern onto the point at index
/// `j` of the set moves the points at the positions before `k` onto points
/// of the set too.
pub open spec fn reaches(points: Seq<Point2Di64>, pattern: Seq<Point2Di64>, k: int, j: int) -> bool {
    forall|l: int|
        0 <= l <= k ==> shifted_in(points, #[trigger] pattern[l], pattern[k], points[j])
}

/// The indices are, in ascending order, those of the points onto which the
/// point at position `k` of the pattern can be moved together with the
/// points before it.
pub open spec fn is_chain_at(
    points: Seq<Point2Di64>,
    pattern: Seq<Point2Di64>,
    k: int,
    indices: Seq<usize>,
) -> bool {
    &&& indices_ascending(indices)
    &&& forall|a: int| 0 <= a < indices.len() ==> #[trigger] indices[a] < points.len()
    &&& forall|j: int|
        0 <= j < points.len() ==> (has_index(indices, j) <==> #[trigger] reaches(
            points,
            pattern,
            k,
            j,
        ))
}

/// One of the indices is `j`.
pub open spec fn has_index(indices: Seq<usize>, j: int) -> bool {
    exists|a: int| 0 <= a < indices.len() && #[trigger] indices[a] == j
}

/// The pattern is a selection of at least two points of the set, in
/// ascending order, with no gap larger than `max_ioi`.
pub open spec fn is_windowed_pattern(
    points: Seq<Point2Di64>,
    max_ioi: i64,
    pattern: Seq<Point2Di64>,
) -> bool {
    &&& pattern.len() >= 2
    &&& strictly_ascending(pattern)
    &&& gaps_within(pattern, max_ioi)
    &&& forall|i: int| 0 <= i < pattern.len() ==> points.contains(#[trigger] pattern[i])
}

/// What SIATEC-C and SIATEC-CH produce: TECs of patterns of at least two
/// points with no gap larger than `max_ioi`, each with all its translators,
/// of which there is at least one.
pub open spec fn is_siatec_c_result(
    points: Seq<Point2Di64>,
    max_ioi: i64,
    tecs: Seq<TecView>,
) -> bool {
    forall|k: int| 0 <= k < tecs.len() ==> is_windowed_tec(points, max_ioi, #[trigger] tecs[k])
}

/// The TEC is that of a pattern of at least two points of the set with no
/// gap larger than `max_ioi`; it holds all translators of the pattern, and
/// at least one.
pub open spec fn is_windowed_tec(points: Seq<Point2Di64>, max_ioi: i64, tec: TecView) -> bool {
    &&& is_full_tec_in(points, tec)
    &&& is_windowed_pattern(points, max_ioi, tec.pattern)
    &&& tec.translators.len() > 0
}

/// The patterns of those among the first `count` split patterns that have
/// at least two points, in the order of the split patterns.
pub open spec fn long_patterns(splits: Seq<SplitView>, count: int) -> Seq<Seq<Point2Di64>>
    decreases count,
{
    if count <= 0 {
        Seq::empty()
    } else if splits[count - 1].0.len() >= 2 {
        long_patterns(splits, count - 1).push(splits[count - 1].0)
    } else {
        long_patterns(splits, count - 1)
    }
}

/// The TECs are those of the patterns, in their order: each has one of the
/// patterns and all its translators.
pub open spec fn are_full_tecs_of(
    points: Seq<Point2Di64>,
    patterns: Seq<Seq<Point2Di64>>,
    tecs: Seq<TecView>,
) -> bool {
    &&& tecs.len() == patterns.len()
    &&& forall|k: int|
        0 <= k < tecs.len() ==> (#[trigger] tecs[k]).pattern == patterns[k] && is_full_tec_in(
            points,
            tecs[k],
        )
}

/// One round of SIATEC-C with all that it computes on the way: the
/// differences within the windows, these differences sorted, their MTPs,
/// the split patterns of the MTPs, and the TECs of the split patterns of
/// at least two points.
pub open spec fn is_round_with(
    points: Seq<Point2Di64>,
    max_ioi: i64,
    targets: Seq<usize>,
    bounds: Seq<i128>,
    next_targets: Seq<usize>,
    next_bounds: Seq<i128>,
    entries: Seq<(Point2Di64, IndPair)>,
    sorted: Seq<(Point2Di64, IndPair)>,
    mtps: Seq<WindowedMtp>,
    splits: Seq<SplitView>,
    tecs: Seq<TecView>,
) -> bool {
    &&& is_window_round(points, max_ioi, targets, bounds, next_targets, next_bounds, entries)
    &&& sorted.to_multiset() == entries.to_multiset()
    &&& pair_entries_sorted(sorted)
    &&& are_mtps_of(points, sorted, mtps)
    &&& are_all_splits_of(mtps, max_ioi, splits)
    &&& are_full_tecs_of(points, long_patterns(splits, splits.len() as int), tecs)
}

/// One round of SIATEC-C: it moves the windows and yields the TECs of the
/// split patterns of the MTPs of the differences within the windows.
pub open spec fn is_round(
    points: Seq<Point2Di64>,
    max_ioi: i64,
    targets: Seq<usize>,
    bounds: Seq<i128>,
    next_targets: Seq<usize>,
    next_bounds: Seq<i128>,
    tecs: Seq<TecView>,
) -> bool {
    exists|
        entries: Seq<(Point2Di64, IndPair)>,
        sorted: Seq<(Point2Di64, IndPair)>,
        mtps: Seq<WindowedMtp>,
        splits: Seq<SplitView>,
    |
        #![trigger is_round_with(points, max_ioi, targets, bounds, next_targets, next_bounds, entries, sorted, mtps, splits, tecs)]
        is_round_with(
            points,
            max_ioi,
            targets,
            bounds,
            next_targets,
            next_bounds,
            entries,
            sorted,
            mtps,
            splits,
            tecs,
        )
}

/// The windows before the first round: the window of each point begins at
/// the point, and its upper bound lies `max_ioi` above the onset of the
/// point.
pub open spec fn are_first_windows(
    points: Seq<Point2Di64>,
    max_ioi: i64,
    targets: Seq<usize>,
    bounds: Seq<i128>,
) -> bool {
    &&& targets.len() == points.len()
    &&& bounds.len() == points.len()
    &&& forall|i: int| 0 <= i < points.len() ==> #[trigger] targets[i] == i
    &&& forall|i: int| 0 <= i < points.len() ==> #[trigger] bounds[i] == points[i].x + max_ioi
}

/// The TECs of all rounds, one round after the other.
pub open spec fn joined_tecs(outputs: Seq<Seq<TecView>>) -> Seq<TecView>
    decreases outputs.len(),
{
    if outputs.len() == 0 {
        Seq::empty()
    } else {
        joined_tecs(outputs.drop_last()) + outputs.last()
    }
}

/// The rounds of SIATEC-C: `targets` and `bounds` hold the windows before
/// each round and after the last, `outputs` the TECs of each round. A round
/// is run as long as the window of the first point has not reached the end
/// of the set.
pub open spec fn are_rounds(
    points: Seq<Point2Di64>,
    max_ioi: i64,
    targets: Seq<Seq<usize>>,
    bounds: Seq<Seq<i128>>,
    outputs: Seq<Seq<TecView>>,
) -> bool {
    &&& targets.len() == outputs.len() + 1
    &&& bounds.len() == outputs.len() + 1
    &&& are_first_windows(points, max_ioi, targets[0], bounds[0])
    &&& forall|r: int| 0 <= r < outputs.len() ==> (#[trigger] targets[r])[0] < points.len()
    &&& forall|r: int|
        0 <= r < outputs.len() ==> is_round(
            points,
            max_ioi,
            targets[r],
            bounds[r],
            targets[r + 1],
            bounds[r + 1],
            #[trigger] outputs[r],
        )
}

/// What a run of SIATEC-C produces: nothing for fewer than two points, and
/// otherwise the TECs of its rounds, which go on until the window of the
/// first point has reached the end of the set.
pub open spec fn is_siatec_c_run(points: Seq<Point2Di64>, max_ioi: i64, tecs: Seq<TecView>) -> bool {
    if points.len() < 2 {
        tecs.len() == 0
    } else {
        exists|targets: Seq<Seq<usize>>, bounds: Seq<Seq<i128>>, outputs: Seq<Seq<TecView>>|
            #![trigger are_rounds(points, max_ioi, targets, bounds, outputs)]
            are_rounds(points, max_ioi, targets, bounds, outputs) && targets.last()[0]
                >= points.len() && tecs == joined_tecs(outputs)
    }
}

/// How far the rounds are from their end: nothing is left once the window
/// of the first point has reached the end of the set, and otherwise each
/// round brings the upper bound of that window closer to the last onset.
pub open spec fn rounds_left(points: Seq<Point2Di64>, target: usize, bound: i128) -> int {
    if target >= points.len() {
        0
    } else if bound >= points.last().x {
        1
    } else {
        2 + points.last().x - bound
    }
}

/// The shapes of the patterns of the TECs: their vectorized
/// representations.
pub open spec fn tec_shapes(tecs: Seq<Tec>) -> Seq<Seq<Point2Di64>> {
    Seq::new(tecs.len(), |k: int| vectorized(tecs[k].pattern@))
}

/// The index holds a group for the difference.
pub open spec fn holds_group_for(diff_index: Seq<(Point2Di64, Vec<IndPair>)>, diff: Point2Di64) -> bool {
    exists|g: int| 0 <= g < diff_index.len() && (#[trigger] diff_index[g]).0 == diff
}

/// Implements the SIATEC-C algorithm.
pub struct SiatecC {
    /// Maximum allowed inter-onset-interval (IOI) between successive points
    /// in a pattern.
    pub max_ioi: i64,
}

impl TecAlgorithm for SiatecC {
    open spec fn accepts(&self, points: Seq<Point2Di64>) -> bool {
        differences_fit(points) && self.max_ioi > 0
    }

    open spec fn produces(&self, points: Seq<Point2Di64>, tecs: Seq<TecView>) -> bool {
        is_siatec_c_result(points, self.max_ioi, tecs) && is_siatec_c_run(
            points,
            self.max_ioi,
            tecs,
        )
    }

    open spec fn gives_patterns(&self) -> bool {
        true
    }

    fn compute_tecs(&self, point_set: &PointSet) -> (tecs: Vec<Tec>) {
        let mut collector = TecCollector { tecs: Vec::new() };
        self.compute_tecs_to_output(point_set, &mut collector);
        proof {
            let found = choose|found: Seq<TecView>|
                #![trigger self.produces(point_set@, found)]
                self.produces(point_set@, found) && is_extended_by(
                    collector.received(),
                    Seq::<TecView>::empty(),
                    found,
                ) && forall|k: int|
                    0 <= k < found.len() ==> is_tec_in(point_set@, #[trigger] found[k]);
            assert(tec_views(Seq::<Tec>::empty()) =~= Seq::<TecView>::empty());
            assert(Seq::<TecView>::empty() + found =~= found);
            assert forall|k: int| 0 <= k < collector.tecs@.len() implies is_tec_in(
                point_set@,
                #[trigger] collector.tecs@[k]@,
            ) by {
                assert(found[k] == collector.tecs@[k]@);
            }
        }
        collector.tecs
    }

    fn compute_tecs_to_output<O: TecOutput>(&self, point_set: &PointSet, on_output: &mut O) {
        let diff_index = self.compute_diff_index(point_set);
        self.compute_split_mtp_tecs(point_set, &diff_index, on_output);
        proof {
            let found = choose|found: Seq<TecView>|
                #![trigger is_siatec_c_result(point_set@, self.max_ioi, found)]
                is_siatec_c_result(point_set@, self.max_ioi, found) && is_siatec_c_run(
                    point_set@,
                    self.max_ioi,
                    found,
                ) && is_extended_by(on_output.received(), old(on_output).received(), found);
            assert(self.produces(point_set@, found));
            assert forall|k: int| 0 <= k < found.len() implies is_tec_in(
                point_set@,
                #[trigger] found[k],
            ) by {
                assert(is_windowed_tec(point_set@, self.max_ioi, found[k]));
            }
        }
    }
}

impl SiatecC {
    /// Computes the IOI between two points. Onset time is the first
    /// component of the points.
    pub fn ioi(a: &Point2Di64, b: &Point2Di64) -> (interval: i128)
        ensures
            interval == ioi_between(*a, *b),
    {
        b.x as i128 - a.x as i128
    }

    /// Returns a vector of difference - index-pair-vector pairs, sorted in
    /// ascending lexicographical order of the difference vectors.
    pub fn compute_diff_index(&self, point_set: &PointSet) -> (diff_index: Vec<
        (Point2Di64, Vec<IndPair>),
    >)
        requires
            differences_fit(point_set@),
        ensures
            is_diff_index(point_set@, self.max_ioi, diff_index@),
    {
        let forward_diffs = self.compute_forward_diffs(point_set);
        self.partition_by_diff_vector(point_set, &forward_diffs)
    }

    /// Groups the sorted differences by difference vector: each maximal run
    /// of equal differences becomes one group of index pairs.
    pub fn partition_by_diff_vector(
        &self,
        point_set: &PointSet,
        forward_diffs: &Vec<(Point2Di64, IndPair)>,
    ) -> (diff_index: Vec<(Point2Di64, Vec<IndPair>)>)
        requires
            is_windowed_diff_list(point_set@, self.max_ioi, forward_diffs@),
        ensures
            is_diff_index(point_set@, self.max_ioi, diff_index@),
    {
        let diff_index = SiatecC::group_by_difference(point_set, self.max_ioi, forward_diffs);
        proof {
            lemma_all_indexed(point_set@, self.max_ioi, forward_diffs@, diff_index@);
        }
        diff_index
    }

    /// Groups sorted differences by difference vector: each maximal run of
    /// equal differences becomes one group of index pairs.
    pub fn group_by_difference(
        point_set: &PointSet,
        max_ioi: i64,
        forward_diffs: &Vec<(Point2Di64, IndPair)>,
    ) -> (diff_index: Vec<(Point2Di64, Vec<IndPair>)>)
        requires
            is_valid_diff_list(point_set@, max_ioi, forward_diffs@),
        ensures
            is_grouping_of(point_set@, max_ioi, forward_diffs@, diff_index@),
    {
        proof {
            use_type_invariant(point_set);
        }
        let ghost points = point_set@;
        let ghost entries = forward_diffs@;
        let mut diff_index: Vec<(Point2Di64, Vec<IndPair>)> = Vec::new();
        let m = forward_diffs.len();
        let mut i: usize = 0;
        proof {
            lemma_nothing_indexed(points, max_ioi, entries);
        }
        while i < m
            invariant
                i <= m,
                m == entries.len(),
                entries == forward_diffs@,
                points == point_set@,
                strictly_ascending(points),
                is_valid_diff_list(points, max_ioi, entries),
                0 < i < m ==> entries[i - 1].0 != entries[i as int].0,
                indexed_up_to(points, max_ioi, entries, i as int, diff_index@),
                entries_indexed_up_to(entries, i as int, diff_index@),
                groups_from_entries(entries, i as int, diff_index@),
            decreases m - i,
        {
            let mut index_pairs: Vec<IndPair> = Vec::new();
            let translator = forward_diffs[i].0;
            let mut j: usize = i;
            while j < m && translator == forward_diffs[j].0
                invariant
                    i <= j <= m,
                    i < m,
                    m == entries.len(),
                    entries == forward_diffs@,
                    translator == entries[i as int].0,
                    index_pairs@.len() == j - i,
                    forall|k: int| 0 <= k < j - i ==> index_pairs@[k] == entries[i + k].1,
                    forall|x: int| i <= x < j ==> (#[trigger] entries[x]).0 == translator,
                decreases m - j,
            {
                index_pairs.push(forward_diffs[j].1);
                j += 1;
            }
            let ghost before = diff_index@;
            diff_index.push((translator, index_pairs));
            proof {
                lemma_group_indexed(
                    points,
                    max_ioi,
                    entries,
                    i as int,
                    j as int,
                    before,
                    diff_index@[before.len() as int],
                );
                lemma_entries_stay_indexed(
                    entries,
                    i as int,
                    j as int,
                    before,
                    diff_index@[before.len() as int],
                );
                lemma_groups_stay_from_entries(
                    entries,
                    i as int,
                    j as int,
                    before,
                    diff_index@[before.len() as int],
                );
                assert(diff_index@ =~= before.push(diff_index@[before.len() as int]));
                if j < m {
                    assert(entries[j - 1].0 == translator);
                }
            }
            i = j;
        }
        proof {
            reveal(indexed_up_to);
        }
        diff_index
    }

    /// Computes forward differences that have inter-onset-interval of at
    /// most the limit set in this instance of SiatecC, sorted in ascending
    /// order.
    pub fn compute_forward_diffs(&self, point_set: &PointSet) -> (forward_diffs: Vec<
        (Point2Di64, IndPair),
    >)
        requires
            differences_fit(point_set@),
        ensures
            is_windowed_diff_list(point_set@, self.max_ioi, forward_diffs@),
    {
        proof {
            use_type_invariant(point_set);
        }
        let mut forward_diffs = SiatecC::windowed_differences(point_set, self.max_ioi);
        let ghost unsorted = forward_diffs@;
        proof {
            assert forall|a: int, b: int|
                0 <= a < b < forward_diffs@.len() implies forward_diffs@[a] != forward_diffs@[b] by {
                assert(pair_generated_before(forward_diffs@[a].1, forward_diffs@[b].1));
            }
        }
        sort_with_ind_pairs(&mut forward_diffs);
        proof {
            lemma_sorted_windowed_list(point_set@, self.max_ioi, unsorted, forward_diffs@);
        }
        forward_diffs
    }

    /// Computes the differences from each point to the later points that
    /// are at most `max_ioi` later in onset, in the order of the points.
    pub fn windowed_differences(point_set: &PointSet, max_ioi: i64) -> (forward_diffs: Vec<
        (Point2Di64, IndPair),
    >)
        requires
            differences_fit(point_set@),
        ensures
            is_generated_diff_list(point_set@, max_ioi, forward_diffs@),
    {
        proof {
            use_type_invariant(point_set);
        }
        let ghost points = point_set@;
        let n = point_set.len();
        let mut forward_diffs: Vec<(Point2Di64, IndPair)> = Vec::new();
        let mut i: usize = 0;
        while i < n
            invariant
                i <= n,
                n == points.len(),
                points == point_set@,
                strictly_ascending(points),
                differences_fit(points),
                forall|k: int|
                    0 <= k < forward_diffs@.len() ==> is_windowed_entry(
                        points,
                        max_ioi,
                        #[trigger] forward_diffs@[k],
                    ),
                forall|k: int| 0 <= k < forward_diffs@.len() ==> (#[trigger] forward_diffs@[k]).1.0 < i,
                forall|a: int, b: int|
                    0 <= a < b < forward_diffs@.len() ==> pair_generated_before(
                        (#[trigger] forward_diffs@[a]).1,
                        (#[trigger] forward_diffs@[b]).1,
                    ),
                forall|a: int, b: int|
                    0 <= a < i && a < b < n && ioi_between(points[a], points[b]) <= max_ioi
                        ==> #[trigger] has_pair_entry(forward_diffs@, a, b),
            decreases n - i,
        {
            let from = point_set[i];
            let mut j: usize = i + 1;
            let mut within = true;
            while j < n && within
                invariant
                    i < n,
                    i < j <= n,
                    n == points.len(),
                    points == point_set@,
                    from == points[i as int],
                    strictly_ascending(points),
                    differences_fit(points),
                    forall|k: int|
                        0 <= k < forward_diffs@.len() ==> is_windowed_entry(
                            points,
                            max_ioi,
                            #[trigger] forward_diffs@[k],
                        ),
                    forall|k: int|
                        0 <= k < forward_diffs@.len() ==> (#[trigger] forward_diffs@[k]).1.0 < i || (
                        forward_diffs@[k].1.0 == i && forward_diffs@[k].1.1 < j),
                    forall|a: int, b: int|
                        0 <= a < b < forward_diffs@.len() ==> pair_generated_before(
                            (#[trigger] forward_diffs@[a]).1,
                            (#[trigger] forward_diffs@[b]).1,
                        ),
                    forall|a: int, b: int|
                        0 <= a < i && a < b < n && ioi_between(points[a], points[b]) <= max_ioi
                            ==> #[trigger] has_pair_entry(forward_diffs@, a, b),
                    within ==> forall|b: int|
                        i < b < j && ioi_between(from, points[b]) <= max_ioi
                            ==> #[trigger] has_pair_entry(forward_diffs@, i as int, b),
                    !within ==> forall|b: int|
                        i < b < n && ioi_between(from, points[b]) <= max_ioi
                            ==> #[trigger] has_pair_entry(forward_diffs@, i as int, b),
                decreases n - j, within as int,
            {
                let to = point_set[j];
                assert(points[j as int].can_sub(points[i as int]));
                let diff = to - from;
                let ghost before = forward_diffs@;
                if diff.x > max_ioi {
                    proof {
                        assert forall|b: int|
                            i < b < n && ioi_between(from, points[b]) <= max_ioi
                            implies #[trigger] has_pair_entry(forward_diffs@, i as int, b) by {
                            if b >= j {
                                if b > j {
                                    assert(points[j as int].lex_lt(points[b]));
                                }
                            }
                        }
                    }
                    within = false;
                } else {
                    forward_diffs.push((diff, (i, j)));
                    proof {
                        assert forall|a: int, b: int|
                            0 <= a < i && a < b < n && ioi_between(points[a], points[b])
                                <= max_ioi implies #[trigger] has_pair_entry(
                            forward_diffs@,
                            a,
                            b,
                        ) by {
                            assert(has_pair_entry(before, a, b));
                            let x = choose|x: int|
                                0 <= x < before.len() && (#[trigger] before[x]).1.0 == a
                                    && before[x].1.1 == b;
                            assert(forward_diffs@[x] == before[x]);
                        }
                        assert forall|b: int|
                            i < b < j + 1 && ioi_between(from, points[b]) <= max_ioi
                            implies #[trigger] has_pair_entry(forward_diffs@, i as int, b) by {
                            if b < j {
                                assert(has_pair_entry(before, i as int, b));
                                let x = choose|x: int|
                                    0 <= x < before.len() && (#[trigger] before[x]).1.0 == i
                                        && before[x].1.1 == b;
                                assert(forward_diffs@[x] == before[x]);
                            } else {
                                assert(forward_diffs@[before.len() as int].1 == (i, j));
                            }
                        }
                        assert forall|a: int, b: int|
                            0 <= a < b < forward_diffs@.len() implies pair_generated_before(
                            (#[trigger] forward_diffs@[a]).1,
                            (#[trigger] forward_diffs@[b]).1,
                        ) by {
                            if b < before.len() {
                                assert(pair_generated_before(before[a].1, before[b].1));
                            }
                        }
                    }
                    j += 1;
                }
            }
            i += 1;
        }
        forward_diffs
    }

    /// Looks the difference up in the index and returns the position of
    /// its group. The index must hold the difference: a group for another
    /// difference is never returned in its place, and a caller that has not
    /// been verified ends the program with a miss.
    pub fn find_indices(diff_index: &Vec<(Point2Di64, Vec<IndPair>)>, translation: &Point2Di64) -> (found:
        usize)
        requires
            groups_ascending(diff_index@),
            holds_group_for(diff_index@, *translation),
        ensures
            found < diff_index@.len(),
            diff_index@[found as int].0 == *translation,
    {
        let mut low: usize = 0;
        let mut high: usize = diff_index.len();
        while low < high
            invariant
                low <= high <= diff_index@.len(),
                groups_ascending(diff_index@),
                forall|g: int| 0 <= g < low ==> (#[trigger] diff_index@[g]).0.lex_lt(*translation),
                forall|g: int|
                    high <= g < diff_index@.len() ==> translation.lex_lt(
                        (#[trigger] diff_index@[g]).0,
                    ),
            decreases high - low,
        {
            let middle = low + (high - low) / 2;
            let candidate = diff_index[middle].0;
            if candidate == *translation {
                return middle;
            } else if candidate.precedes(translation) {
                assert forall|g: int| 0 <= g < middle + 1 implies (
                #[trigger] diff_index@[g]).0.lex_lt(*translation) by {
                    if g < middle {
                        assert(diff_index@[g].0.lex_lt(diff_index@[middle as int].0));
                    }
                }
                low = middle + 1;
            } else {
                assert forall|g: int| middle <= g < diff_index@.len() implies translation.lex_lt(
                    (#[trigger] diff_index@[g]).0,
                ) by {
                    if g > middle {
                        assert(diff_index@[middle as int].0.lex_lt(diff_index@[g].0));
                    }
                }
                high = middle;
            }
        }
        proof {
            // Every group lies before or after the difference, though the
            // index holds it.
            let g = choose|g: int|
                0 <= g < diff_index@.len() && (#[trigger] diff_index@[g]).0 == *translation;
            assert(diff_index@[g].0.lex_lt(*translation) || translation.lex_lt(diff_index@[g].0));
        }
        unreached()
    }

    /// Computes the TECs round by round: in each round the differences
    /// within the windows are partitioned into MTPs, the MTPs are split on
    /// gaps, and for each piece of at least two points the translators are
    /// found and the TEC is handed to `on_output`.
    pub fn compute_split_mtp_tecs<O: TecOutput>(
        &self,
        point_set: &PointSet,
        diff_index: &Vec<(Point2Di64, Vec<IndPair>)>,
        on_output: &mut O,
    )
        requires
            self.max_ioi > 0,
            differences_fit(point_set@),
            is_diff_index(point_set@, self.max_ioi, diff_index@),
        ensures
            exists|tecs: Seq<TecView>|
                #![trigger is_siatec_c_result(point_set@, self.max_ioi, tecs)]
                is_siatec_c_result(point_set@, self.max_ioi, tecs) && is_siatec_c_run(
                    point_set@,
                    self.max_ioi,
                    tecs,
                ) && is_extended_by(final(on_output).received(), old(on_output).received(), tecs),
    {
        proof {
            use_type_invariant(point_set);
        }
        let ghost points = point_set@;
        let ghost emitted: Seq<TecView> = Seq::empty();
        assert(old(on_output).received() + emitted =~= old(on_output).received());
        let n = point_set.len();
        if n < 2 {
            assert(is_siatec_c_result(points, self.max_ioi, emitted));
            assert(is_siatec_c_run(points, self.max_ioi, emitted));
            return;
        }
        // target_indices keeps track of where the window of each point
        // begins, window_bounds of the upper bounds of the windows within
        // which the target points of the translators must be.
        let mut target_indices: Vec<usize> = Siatec::all_positions(n);
        let mut window_bounds = self.init_window_upper_bounds(point_set);
        let ghost all_targets: Seq<Seq<usize>> = seq![target_indices@];
        let ghost all_bounds: Seq<Seq<i128>> = seq![window_bounds@];
        let ghost outputs: Seq<Seq<TecView>> = Seq::empty();
        proof {
            assert(joined_tecs(outputs) =~= emitted);
        }
        while target_indices[0] < n
            invariant
                all_targets.last() == target_indices@,
                all_bounds.last() == window_bounds@,
                are_rounds(points, self.max_ioi, all_targets, all_bounds, outputs),
                emitted == joined_tecs(outputs),
                n >= 2,
                n == points.len(),
                points == point_set@,
                self.max_ioi > 0,
                strictly_ascending(points),
                differences_fit(points),
                is_diff_index(points, self.max_ioi, diff_index@),
                target_indices@.len() == n,
                window_bounds@.len() == n,
                windows_begin_after(target_indices@),
                bounds_in_range(window_bounds@),
                on_output.received() == old(on_output).received() + emitted,
                is_siatec_c_result(points, self.max_ioi, emitted),
            decreases rounds_left(points, target_indices@[0], window_bounds@[0]),
        {
            let ghost targets_before = target_indices@;
            let ghost bounds_before = window_bounds@;
            // Compute forward diffs in restricted size window
            let mut forward_diffs = self.compute_forward_diffs_within_window(
                point_set,
                &mut target_indices,
                &mut window_bounds,
            );
            let ghost entries = forward_diffs@;
            let ghost emitted_before = emitted;
            let ghost round_tecs: Seq<TecView> = Seq::empty();
            proof {
                assert(window_open(n as int, 0, targets_before[0]));
                assert(window_advanced(
                    points,
                    self.max_ioi,
                    0,
                    targets_before[0],
                    bounds_before[0],
                    target_indices@[0],
                    window_bounds@[0],
                ));
                if target_indices@[0] < n {
                    let reached = target_indices@[0] as int;
                    if reached < n - 1 {
                        assert(points[reached].lex_lt(points[n - 1]));
                    }
                }
                assert forall|a: int, b: int|
                    0 <= a < b < forward_diffs@.len() implies forward_diffs@[a]
                    != forward_diffs@[b] by {
                    assert(pair_generated_before(forward_diffs@[a].1, forward_diffs@[b].1));
                }
                assert forall|k: int| 0 <= k < forward_diffs@.len() implies crate::discovery::windows::is_forward_entry(
                    points,
                    #[trigger] forward_diffs@[k],
                ) by {}
            }
            let mtps = SiatecC::partition_to_mtps(point_set, &mut forward_diffs);
            proof {
                assert forall|g: int| 0 <= g < mtps@.len() implies (#[trigger] mtps@[g]).1@.len()
                    == mtps@[g].0.pattern@.len() && mtps@[g].2@.len()
                    == mtps@[g].0.pattern@.len() by {
                    assert(is_windowed_mtp(points, mtps@[g]));
                }
            }
            let split_triples = SiatecC::split_mtps_on_ioi(&mtps, self.max_ioi);
            let ghost splits = split_views(split_triples@);
            let mut k: usize = 0;
            proof {
                assert(emitted_before + round_tecs =~= emitted);
            }
            while k < split_triples.len()
                invariant
                    k <= split_triples@.len(),
                    points == point_set@,
                    self.max_ioi > 0,
                    strictly_ascending(points),
                    differences_fit(points),
                    is_diff_index(points, self.max_ioi, diff_index@),
                    are_mtps_of(points, forward_diffs@, mtps@),
                    splits == split_views(split_triples@),
                    are_splits_of(mtps@, self.max_ioi, splits),
                    on_output.received() == old(on_output).received() + emitted,
                    is_siatec_c_result(points, self.max_ioi, emitted),
                    emitted == emitted_before + round_tecs,
                    are_full_tecs_of(points, long_patterns(splits, k as int), round_tecs),
                decreases split_triples@.len() - k,
            {
                let pattern = &split_triples[k].0;
                proof {
                    assert(splits[k as int] == split_view(split_triples@[k as int]));
                }
                if pattern.len() > 1 {
                    proof {
                        let piece = split_views(split_triples@)[k as int];
                        assert(piece == split_view(split_triples@[k as int]));
                        lemma_piece_is_windowed(points, self.max_ioi, mtps@, piece);
                    }
                    let translators = self.find_translators(pattern, diff_index, point_set);
                    let tec = Tec { pattern: pattern.copy(), translators };
                    proof {
                        let piece = split_views(split_triples@)[k as int];
                        lemma_piece_recurs(points, self.max_ioi, mtps@, piece, tec@);
                        assert((old(on_output).received() + emitted).push(tec@) =~= old(
                            on_output,
                        ).received() + emitted.push(tec@));
                        let longer = emitted.push(tec@);
                        assert forall|x: int| 0 <= x < longer.len() implies is_windowed_tec(
                            points,
                            self.max_ioi,
                            #[trigger] longer[x],
                        ) by {
                            if x < emitted.len() {
                                assert(longer[x] == emitted[x]);
                            }
                        }
                        let more = round_tecs.push(tec@);
                        assert(longer =~= emitted_before + more);
                        assert forall|x: int| 0 <= x < more.len() implies (
                        #[trigger] more[x]).pattern == long_patterns(splits, k + 1)[x]
                            && is_full_tec_in(points, more[x]) by {
                            if x < round_tecs.len() {
                                assert(more[x] == round_tecs[x]);
                            }
                        }
                        emitted = longer;
                        round_tecs = more;
                    }
                    on_output.output(tec);
                }
                k += 1;
            }
            proof {
                assert(is_round_with(
                    points,
                    self.max_ioi,
                    targets_before,
                    bounds_before,
                    target_indices@,
                    window_bounds@,
                    entries,
                    forward_diffs@,
                    mtps@,
                    splits,
                    round_tecs,
                ));
                let more_targets = all_targets.push(target_indices@);
                let more_bounds = all_bounds.push(window_bounds@);
                let more_outputs = outputs.push(round_tecs);
                assert forall|r: int| 0 <= r < more_outputs.len() implies (
                #[trigger] more_targets[r])[0] < points.len() by {
                    if r < outputs.len() {
                        assert(more_targets[r] == all_targets[r]);
                    } else {
                        assert(more_targets[r] == targets_before);
                    }
                }
                assert forall|r: int| 0 <= r < more_outputs.len() implies is_round(
                    points,
                    self.max_ioi,
                    more_targets[r],
                    more_bounds[r],
                    more_targets[r + 1],
                    more_bounds[r + 1],
                    #[trigger] more_outputs[r],
                ) by {
                    if r < outputs.len() {
                        assert(more_targets[r] == all_targets[r]);
                        assert(more_targets[r + 1] == all_targets[r + 1]);
                        assert(more_bounds[r] == all_bounds[r]);
                        assert(more_bounds[r + 1] == all_bounds[r + 1]);
                        assert(more_outputs[r] == outputs[r]);
                    } else {
                        assert(more_targets[r] == targets_before);
                        assert(more_bounds[r] == bounds_before);
                        assert(more_targets[r + 1] == target_indices@);
                        assert(more_bounds[r + 1] == window_bounds@);
                        assert(more_outputs[r] == round_tecs);
                    }
                }
                assert(more_outputs.drop_last() =~= outputs);
                assert(more_targets[0] == all_targets[0]);
                assert(more_bounds[0] == all_bounds[0]);
                assert(are_rounds(points, self.max_ioi, more_targets, more_bounds, more_outputs));
                all_targets = more_targets;
                all_bounds = more_bounds;
                outputs = more_outputs;
            }
        }
        proof {
            assert(is_siatec_c_run(points, self.max_ioi, emitted));
        }
    }

    /// Finds all translators of the pattern: all non-zero vectors that move
    /// every point of the pattern onto a point of the set, in ascending
    /// order. They are found by following the differences between the
    /// pattern's neighbours through the difference index.
    pub fn find_translators(
        &self,
        pattern: &Pattern,
        diff_index: &Vec<(Point2Di64, Vec<IndPair>)>,
        point_set: &PointSet,
    ) -> (translators: Vec<Point2Di64>)
        requires
            differences_fit(point_set@),
            is_diff_index(point_set@, self.max_ioi, diff_index@),
            is_windowed_pattern(point_set@, self.max_ioi, pattern@),
        ensures
            is_full_tec_in(point_set@, TecView { pattern: pattern@, translators: translators@ }),
    {
        let steps = self.find_steps(pattern, diff_index, point_set);
        let target_indices = SiatecC::follow_steps(point_set, pattern, &steps);
        SiatecC::translators_onto(point_set, pattern, &target_indices)
    }

    /// Looks up, for each pair of neighbours in the pattern, the group of
    /// the index that holds the difference between the two.
    pub fn find_steps<'a>(
        &self,
        pattern: &Pattern,
        diff_index: &'a Vec<(Point2Di64, Vec<IndPair>)>,
        point_set: &PointSet,
    ) -> (steps: Vec<&'a Vec<IndPair>>)
        requires
            differences_fit(point_set@),
            is_diff_index(point_set@, self.max_ioi, diff_index@),
            is_windowed_pattern(point_set@, self.max_ioi, pattern@),
        ensures
            are_steps_of(point_set@, pattern@, steps@),
    {
        proof {
            use_type_invariant(point_set);
            lemma_pattern_can_vectorize(point_set@, pattern@);
        }
        let ghost points = point_set@;
        let ghost shape = pattern@;
        let vectorized_pattern = pattern.vectorize();
        let count = vectorized_pattern.len();
        let mut steps: Vec<&Vec<IndPair>> = Vec::with_capacity(count);
        let mut k: usize = 0;
        while k < count
            invariant
                k <= count,
                count == shape.len() - 1,
                points == point_set@,
                shape == pattern@,
                strictly_ascending(points),
                differences_fit(points),
                is_diff_index(points, self.max_ioi, diff_index@),
                is_windowed_pattern(points, self.max_ioi, shape),
                vectorized_pattern@ == vectorized(shape),
                steps@.len() == k,
                forall|s: int|
                    0 <= s < k ==> is_step_group(
                        points,
                        shape[s],
                        shape[s + 1],
                        (#[trigger] steps@[s])@,
                    ),
            decreases count - k,
        {
            let diff = vectorized_pattern[k];
            proof {
                lemma_step_is_indexed(points, self.max_ioi, diff_index@, shape, k as int);
            }
            let g = SiatecC::find_indices(diff_index, &diff);
            proof {
                lemma_group_is_step(
                    points,
                    self.max_ioi,
                    diff_index@,
                    g as int,
                    shape[k as int],
                    shape[k + 1],
                );
            }
            steps.push(&diff_index[g].1);
            k += 1;
        }
        steps
    }

    /// Follows the steps of a pattern through the point set: finds the
    /// indices of the points onto which the last point of the pattern can
    /// be moved together with all the points before it.
    pub fn follow_steps(point_set: &PointSet, pattern: &Pattern, steps: &Vec<&Vec<IndPair>>) -> (target_indices:
        Vec<usize>)
        requires
            pattern@.len() >= 2,
            are_steps_of(point_set@, pattern@, steps@),
        ensures
            is_chain_at(point_set@, pattern@, pattern@.len() - 1, target_indices@),
    {
        proof {
            use_type_invariant(point_set);
        }
        let ghost points = point_set@;
        let ghost shape = pattern@;
        let indices = steps[0];
        let mut target_indices: Vec<usize> = Vec::with_capacity(indices.len());
        let mut i: usize = 0;
        while i < indices.len()
            invariant
                i <= indices@.len(),
                target_indices@.len() == i,
                forall|a: int| 0 <= a < i ==> target_indices@[a] == indices@[a].1,
            decreases indices@.len() - i,
        {
            target_indices.push(indices[i].1);
            i += 1;
        }
        proof {
            lemma_first_step(points, shape, indices@, target_indices@);
        }
        let mut k: usize = 1;
        while k < steps.len()
            invariant
                1 <= k <= steps@.len(),
                points == point_set@,
                shape == pattern@,
                strictly_ascending(points),
                are_steps_of(points, shape, steps@),
                is_chain_at(points, shape, k as int, target_indices@),
            decreases steps@.len() - k,
        {
            let translatable_indices = steps[k];
            let ghost before = target_indices@;
            target_indices = SiatecC::match_index_pairs_forward(
                &target_indices,
                translatable_indices,
            );
            proof {
                lemma_next_step(points, shape, k as int, before, translatable_indices@);
            }
            k += 1;
        }
        target_indices
    }

    /// Computes the translators that move the last point of the pattern
    /// onto the points at the given indices, leaving out the zero vector.
    pub fn translators_onto(
        point_set: &PointSet,
        pattern: &Pattern,
        target_indices: &Vec<usize>,
    ) -> (translators: Vec<Point2Di64>)
        requires
            differences_fit(point_set@),
            pattern@.len() >= 1,
            strictly_ascending(pattern@),
            forall|i: int| 0 <= i < pattern@.len() ==> point_set@.contains(#[trigger] pattern@[i]),
            is_chain_at(point_set@, pattern@, pattern@.len() - 1, target_indices@),
        ensures
            is_full_tec_in(point_set@, TecView { pattern: pattern@, translators: translators@ }),
    {
        proof {
            use_type_invariant(point_set);
        }
        let ghost points = point_set@;
        let ghost shape = pattern@;
        let ghost targets = target_indices@;
        let last_point = pattern[pattern.len() - 1];
        let mut translators: Vec<Point2Di64> = Vec::with_capacity(target_indices.len());
        proof {
            lemma_no_target_done(points, shape, targets);
        }
        let mut i: usize = 0;
        while i < target_indices.len()
            invariant
                i <= targets.len(),
                targets == target_indices@,
                points == point_set@,
                shape == pattern@,
                shape.len() >= 1,
                last_point == shape.last(),
                strictly_ascending(points),
                differences_fit(points),
                points.contains(last_point),
                is_chain_at(points, shape, shape.len() - 1, targets),
                translators_up_to(points, shape, targets, i as int, translators@),
            decreases targets.len() - i,
        {
            let target = target_indices[i];
            proof {
                let l = choose|l: int| 0 <= l < points.len() && points[l] == last_point;
                assert(points[target as int].can_sub(points[l]));
            }
            let translator = point_set[target] - last_point;
            let ghost before = translators@;
            let keep = !translator.is_zero();
            if keep {
                translators.push(translator);
            }
            proof {
                lemma_target_done(points, shape, targets, i as int, translator, before, keep);
            }
            i += 1;
        }
        proof {
            lemma_all_targets_done(points, shape, targets, translators@);
        }
        translators
    }

    /// Removes duplication of translationally equivalent patterns: keeps,
    /// for each shape of pattern, the first TEC with that shape, and puts
    /// the TECs that stay into ascending order of their shapes.
    pub fn remove_translational_duplicates(tecs: &mut Vec<Tec>)
        requires
            forall|k: int|
                0 <= k < old(tecs)@.len() ==> can_vectorize((#[trigger] old(tecs)@[k]).pattern@),
        ensures
            exists|picked: Seq<usize>|
                #![trigger crate::discovery::siatec::picks_first_of_each_shape(tec_shapes(old(tecs)@), picked)]
                crate::discovery::siatec::picks_first_of_each_shape(tec_shapes(old(tecs)@), picked)
                    && final(tecs)@.len() == picked.len() && forall|k: int|
                    0 <= k < picked.len() ==> (#[trigger] final(tecs)@[k])@ == old(
                        tecs,
                    )@[picked[k] as int]@,
    {
        let ghost before = tecs@;
        let mut shapes: Vec<Pattern> = Vec::with_capacity(tecs.len());
        let mut k: usize = 0;
        while k < tecs.len()
            invariant
                k <= tecs@.len(),
                tecs@ == before,
                forall|x: int| 0 <= x < before.len() ==> can_vectorize((#[trigger] before[x]).pattern@),
                shapes@.len() == k,
                forall|x: int| 0 <= x < k ==> (#[trigger] shapes@[x])@ == vectorized(before[x].pattern@),
            decreases tecs@.len() - k,
        {
            assert(can_vectorize(before[k as int].pattern@));
            shapes.push(tecs[k].pattern.vectorize());
            k += 1;
        }
        let picked = Siatec::remove_translational_duplicates(&shapes);
        proof {
            assert(crate::discovery::utilities::shape_views(shapes@) =~= tec_shapes(before));
        }
        let mut distinct: Vec<Tec> = Vec::with_capacity(picked.len());
        let mut k: usize = 0;
        while k < picked.len()
            invariant
                k <= picked@.len(),
                tecs@ == before,
                forall|x: int| 0 <= x < picked@.len() ==> #[trigger] picked@[x] < before.len(),
                distinct@.len() == k,
                forall|x: int| 0 <= x < k ==> (#[trigger] distinct@[x])@ == before[picked@[x] as int]@,
            decreases picked@.len() - k,
        {
            distinct.push(tecs[picked[k]].copy());
            k += 1;
        }
        *tecs = distinct;
    }

    /// Finds, for each index pair whose tested component is among the given
    /// indices, its other component. Matching forward finds the indices from
    /// which the points at the given indices can be translated on by a
    /// difference; matching backward finds the points that the difference
    /// moves onto them. The indices and the pairs are meant to be in
    /// ascending order; where they are not, some matches may be passed over,
    /// but whatever is returned is still yielded by one of the pairs.
    pub fn match_index_pairs(
        target_indices: &Vec<usize>,
        index_pairs: &Vec<IndPair>,
        forward: bool,
    ) -> (matching_ind: Vec<usize>)
        ensures
            indices_ascending(target_indices@) && pairs_ascending(index_pairs@) ==> matching_ind@
                == matched(target_indices@, index_pairs@, forward),
            forall|x: int|
                0 <= x < matching_ind@.len() ==> is_yielded_from(
                    index_pairs@,
                    forward,
                    #[trigger] matching_ind@[x],
                ),
    {
        let ghost indices = target_indices@;
        let ghost pairs = index_pairs@;
        let ghost sorted = indices_ascending(indices) && pairs_ascending(pairs);
        let mut matching_ind: Vec<usize> = Vec::new();
        let mut j: usize = 0;
        let mut k: usize = 0;
        assert(pairs.subrange(0, 0) =~= Seq::<IndPair>::empty());
        while j < target_indices.len() && k < index_pairs.len()
            invariant
                j <= indices.len(),
                k <= pairs.len(),
                indices == target_indices@,
                pairs == index_pairs@,
                sorted == (indices_ascending(indices) && pairs_ascending(pairs)),
                sorted ==> matching_ind@ == matched(indices, pairs.subrange(0, k as int), forward),
                sorted ==> forall|a: int|
                    0 <= a < j && k < pairs.len() ==> #[trigger] indices[a] < tested(
                        pairs[k as int],
                        forward,
                    ),
                forall|x: int|
                    0 <= x < matching_ind@.len() ==> is_yielded_from(
                        pairs,
                        forward,
                        #[trigger] matching_ind@[x],
                    ),
            decreases indices.len() - j + pairs.len() - k,
        {
            let pair = index_pairs[k];
            let test = if forward {
                pair.0
            } else {
                pair.1
            };
            let found = if forward {
                pair.1
            } else {
                pair.0
            };
            if target_indices[j] == test {
                let ghost before = matching_ind@;
                matching_ind.push(found);
                proof {
                    assert(yielded(pairs[k as int], forward) == found);
                    assert forall|x: int| 0 <= x < matching_ind@.len() implies is_yielded_from(
                        pairs,
                        forward,
                        #[trigger] matching_ind@[x],
                    ) by {
                        if x < before.len() {
                            assert(matching_ind@[x] == before[x]);
                        }
                    }
                    assert(pairs.subrange(0, k + 1).drop_last() =~= pairs.subrange(0, k as int));
                    assert(indices.contains(indices[j as int]));
                    if sorted && k + 1 < pairs.len() {
                        assert(tested(pairs[k as int], forward) < tested(pairs[k + 1], forward));
                    }
                }
                j += 1;
                k += 1;
            } else if target_indices[j] < test {
                j += 1;
            } else {
                proof {
                    assert(pairs.subrange(0, k + 1).drop_last() =~= pairs.subrange(0, k as int));
                    if sorted && indices.contains(test) {
                        let a = choose|a: int| 0 <= a < indices.len() && indices[a] == test;
                        if a > j {
                            assert(indices[j as int] < indices[a]);
                        }
                    }
                    if sorted && k + 1 < pairs.len() {
                        assert(tested(pairs[k as int], forward) < tested(pairs[k + 1], forward));
                    }
                }
                k += 1;
            }
        }
        proof {
            if sorted && k < pairs.len() {
                assert forall|x: int| k <= x < pairs.len() implies !indices.contains(
                    tested(#[trigger] pairs[x], forward),
                ) by {
                    if indices.contains(tested(pairs[x], forward)) {
                        let a = choose|a: int|
                            0 <= a < indices.len() && indices[a] == tested(pairs[x], forward);
                        if x > k {
                            assert(tested(pairs[k as int], forward) < tested(pairs[x], forward));
                        }
                    }
                }
                lemma_no_more_matches(indices, pairs, k as int, pairs.len() as int, forward);
            }
            assert(pairs.subrange(0, pairs.len() as int) =~= pairs);
        }
        matching_ind
    }

    /// Finds the indices from which the points at the given indices can be
    /// translated on by a difference.
    pub fn match_index_pairs_forward(
        target_indices: &Vec<usize>,
        translatable_indices: &Vec<IndPair>,
    ) -> (matching_ind: Vec<usize>)
        ensures
            indices_ascending(target_indices@) && pairs_ascending(translatable_indices@)
                ==> matching_ind@ == matched(target_indices@, translatable_indices@, true),
            forall|x: int|
                0 <= x < matching_ind@.len() ==> is_yielded_from(
                    translatable_indices@,
                    true,
                    #[trigger] matching_ind@[x],
                ),
    {
        SiatecC::match_index_pairs(target_indices, translatable_indices, true)
    }

    /// Finds the indices of the points that a difference translates onto
    /// the points at the given indices.
    pub fn match_index_pairs_backward(
        target_indices: &Vec<usize>,
        translatable_indices: &Vec<IndPair>,
    ) -> (matching_ind: Vec<usize>)
        ensures
            indices_ascending(target_indices@) && pairs_ascending(translatable_indices@)
                ==> matching_ind@ == matched(target_indices@, translatable_indices@, false),
            forall|x: int|
                0 <= x < matching_ind@.len() ==> is_yielded_from(
                    translatable_indices@,
                    false,
                    #[trigger] matching_ind@[x],
                ),
    {
        SiatecC::match_index_pairs(target_indices, translatable_indices, false)
    }

    /// Splits a pattern and its associated source and target index vectors
    /// on gaps that exceed `max_ioi`.
    pub fn split_pattern_on_ioi_gaps(
        pattern: &Pattern,
        source_ind: &Vec<usize>,
        target_ind: &Vec<usize>,
        max_ioi: i64,
    ) -> (split_patterns: Vec<SplitPattern>)
        requires
            source_ind@.len() == pattern@.len(),
            target_ind@.len() == pattern@.len(),
        ensures
            is_split_on_gaps(
                split_views(split_patterns@),
                pattern@,
                source_ind@,
                target_ind@,
                max_ioi,
            ),
    {
        let ghost points = pattern@;
        let mut split_patterns: Vec<SplitPattern> = Vec::new();
        let mut split: Vec<Point2Di64> = Vec::new();
        let mut split_source_ind: Vec<usize> = Vec::new();
        let mut split_target_ind: Vec<usize> = Vec::new();
        let n = pattern.len();
        let mut i: usize = 0;
        assert(split_views(split_patterns@) =~= Seq::<SplitView>::empty());
        while i < n
            invariant
                i <= n,
                n == points.len(),
                points == pattern@,
                source_ind@.len() == n,
                target_ind@.len() == n,
                split@.len() <= i,
                split_source_ind@.len() == split@.len(),
                split_target_ind@.len() == split@.len(),
                i > 0 ==> split@.len() > 0,
                joined_points(split_views(split_patterns@)) + split@ == points.subrange(0, i as int),
                joined_sources(split_views(split_patterns@)) + split_source_ind@
                    == source_ind@.subrange(0, i as int),
                joined_targets(split_views(split_patterns@)) + split_target_ind@
                    == target_ind@.subrange(0, i as int),
                gaps_within(split@, max_ioi),
                forall|k: int|
                    0 <= k < split_patterns@.len() ==> is_segment(
                        #[trigger] split_views(split_patterns@)[k],
                        max_ioi,
                    ),
                forall|k: int|
                    0 <= k < split_patterns@.len() - 1 ==> ioi_between(
                        split_views(split_patterns@)[k].0.last(),
                        (#[trigger] split_views(split_patterns@)[k + 1]).0.first(),
                    ) > max_ioi,
                split_patterns@.len() > 0 ==> split@.len() > 0 && ioi_between(
                    split_views(split_patterns@).last().0.last(),
                    split@.first(),
                ) > max_ioi,
            decreases n - i,
        {
            let p = pattern[i];
            let ghost done = split_views(split_patterns@);
            let ghost current = split@;
            let ghost current_sources = split_source_ind@;
            let ghost current_targets = split_target_ind@;
            let mut gap = false;
            if i > 0 {
                let prev = pattern[i - 1];
                proof {
                    assert(points.subrange(0, i as int)[i - 1] == points[i - 1]);
                    assert(points.subrange(0, i as int).len() == i);
                    assert(joined_points(done).len() + current.len() == i);
                    assert((joined_points(done) + current)[joined_points(done).len() + (
                    current.len() - 1)] == current[current.len() - 1]);
                }
                gap = SiatecC::ioi(&prev, &p) > max_ioi as i128;
            }
            if gap {
                let segment: SplitPattern = (
                    Pattern::from_points(split),
                    split_source_ind,
                    split_target_ind,
                );
                split_patterns.push(segment);
                split = Vec::new();
                split_source_ind = Vec::new();
                split_target_ind = Vec::new();
                proof {
                    let segments = split_views(split_patterns@);
                    assert(segments =~= done.push((current, current_sources, current_targets)));
                    assert(segments.drop_last() =~= done);
                    assert(joined_points(segments) + split@ =~= joined_points(done) + current);
                    assert(joined_sources(segments) + split_source_ind@ =~= joined_sources(done)
                        + current_sources);
                    assert(joined_targets(segments) + split_target_ind@ =~= joined_targets(done)
                        + current_targets);
                }
            }
            let ghost done_now = split_views(split_patterns@);
            let ghost start = split@;
            let ghost start_sources = split_source_ind@;
            let ghost start_targets = split_target_ind@;
            split.push(p);
            split_source_ind.push(source_ind[i]);
            split_target_ind.push(target_ind[i]);
            proof {
                assert(joined_points(done_now) + split@ =~= (joined_points(done_now) + start).push(
                    p,
                ));
                assert(points.subrange(0, i + 1) =~= points.subrange(0, i as int).push(p));
                assert(joined_sources(done_now) + split_source_ind@ =~= (joined_sources(done_now)
                    + start_sources).push(source_ind@[i as int]));
                assert(source_ind@.subrange(0, i + 1) =~= source_ind@.subrange(0, i as int).push(
                    source_ind@[i as int],
                ));
                assert(joined_targets(done_now) + split_target_ind@ =~= (joined_targets(done_now)
                    + start_targets).push(target_ind@[i as int]));
                assert(target_ind@.subrange(0, i + 1) =~= target_ind@.subrange(0, i as int).push(
                    target_ind@[i as int],
                ));
                assert forall|k: int| 0 <= k < split@.len() - 1 implies ioi_between(
                    split@[k],
                    #[trigger] split@[k + 1],
                ) <= max_ioi by {
                    if k + 1 < start.len() {
                        assert(ioi_between(start[k], start[k + 1]) <= max_ioi);
                    }
                }
            }
            i += 1;
        }
        // Handle any potentially remaining points.
        if split.len() > 0 {
            let ghost done = split_views(split_patterns@);
            let ghost current = split@;
            let ghost current_sources = split_source_ind@;
            let ghost current_targets = split_target_ind@;
            let segment: SplitPattern = (
                Pattern::from_points(split),
                split_source_ind,
                split_target_ind,
            );
            split_patterns.push(segment);
            proof {
                let segments = split_views(split_patterns@);
                assert(segments =~= done.push((current, current_sources, current_targets)));
                assert(segments.drop_last() =~= done);
                assert(points.subrange(0, n as int) =~= points);
                assert(source_ind@.subrange(0, n as int) =~= source_ind@);
                assert(target_ind@.subrange(0, n as int) =~= target_ind@);
            }
        } else {
            proof {
                assert(points.subrange(0, n as int) =~= points);
                assert(source_ind@.subrange(0, n as int) =~= source_ind@);
                assert(target_ind@.subrange(0, n as int) =~= target_ind@);
                assert(joined_points(split_views(split_patterns@)) + split@ =~= joined_points(
                    split_views(split_patterns@),
                ));
                assert(joined_sources(split_views(split_patterns@)) + split_source_ind@
                    =~= joined_sources(split_views(split_patterns@)));
                assert(joined_targets(split_views(split_patterns@)) + split_target_ind@
                    =~= joined_targets(split_views(split_patterns@)));
            }
        }
        split_patterns
    }
}

/// The order in which the index pairs are generated: by the first index,
/// then by the second.
pub open spec fn pair_generated_before(a: IndPair, b: IndPair) -> bool {
    a.0 < b.0 || (a.0 == b.0 && a.1 < b.1)
}

/// Sorting the windowed differences gives the windowed difference list.
proof fn lemma_sorted_windowed_list(
    points: Seq<Point2Di64>,
    max_ioi: i64,
    unsorted: Seq<(Point2Di64, IndPair)>,
    sorted: Seq<(Point2Di64, IndPair)>,
)
    requires
        strictly_ascending(points),
        unsorted.no_duplicates(),
        sorted.to_multiset() == unsorted.to_multiset(),
        pair_entries_sorted(sorted),
        forall|e: (Point2Di64, IndPair)| sorted.contains(e) <==> unsorted.contains(e),
        forall|k: int|
            0 <= k < unsorted.len() ==> is_windowed_entry(points, max_ioi, #[trigger] unsorted[k]),
        forall|i: int, j: int|
            0 <= i < j < points.len() && ioi_between(points[i], points[j]) <= max_ioi
                ==> #[trigger] has_pair_entry(unsorted, i, j),
    ensures
        is_windowed_diff_list(points, max_ioi, sorted),
{
    unsorted.lemma_multiset_has_no_duplicates();
    sorted.lemma_multiset_has_no_duplicates_conv();
    assert forall|k: int| 0 <= k < sorted.len() implies is_windowed_entry(
        points,
        max_ioi,
        #[trigger] sorted[k],
    ) by {
        assert(sorted.contains(sorted[k]));
        let m = choose|m: int| 0 <= m < unsorted.len() && unsorted[m] == sorted[k];
        assert(is_windowed_entry(points, max_ioi, unsorted[m]));
    }
    assert forall|a: int, b: int| 0 <= a < b < sorted.len() implies pair_entry_lt(
        #[trigger] sorted[a],
        #[trigger] sorted[b],
    ) by {
        assert(!pair_entry_lt(sorted[b], sorted[a]));
        assert(sorted[a] != sorted[b]);
        assert(is_windowed_entry(points, max_ioi, sorted[a]));
        assert(is_windowed_entry(points, max_ioi, sorted[b]));
        if sorted[a].0 == sorted[b].0 && sorted[a].1.0 == sorted[b].1.0 {
            let x = sorted[a].1.1 as int;
            let y = sorted[b].1.1 as int;
            if x < y {
                assert(points[x].lex_lt(points[y]));
            } else if y < x {
                assert(points[y].lex_lt(points[x]));
            }
        }
    }
    assert forall|i: int, j: int|
        0 <= i < j < points.len() && ioi_between(points[i], points[j])
            <= max_ioi implies #[trigger] has_pair_entry(sorted, i, j) by {
        assert(has_pair_entry(unsorted, i, j));
        let x = choose|x: int|
            0 <= x < unsorted.len() && (#[trigger] unsorted[x]).1.0 == i && unsorted[x].1.1 == j;
        assert(unsorted.contains(unsorted[x]));
        let y = choose|y: int| 0 <= y < sorted.len() && sorted[y] == unsorted[x];
        assert(sorted[y].1.0 == i && sorted[y].1.1 == j);
    }
}

/// What the index holds once the entries before position `i` are dealt
/// with: one group for each difference among them.
#[verifier::opaque]
pub closed spec fn indexed_up_to(
    points: Seq<Point2Di64>,
    max_ioi: i64,
    entries: Seq<(Point2Di64, IndPair)>,
    i: int,
    index: Seq<(Point2Di64, Vec<IndPair>)>,
) -> bool {
    &&& groups_ascending(index)
    &&& forall|g: int| 0 <= g < index.len() ==> is_index_group(points, max_ioi, #[trigger] index[g])
    &&& forall|g: int|
        0 <= g < index.len() ==> has_diff_before(entries, i, (#[trigger] index[g]).0)
}

/// Some entry before position `x` holds the difference and the index
/// pair.
pub open spec fn comes_before(
    entries: Seq<(Point2Di64, IndPair)>,
    x: int,
    diff: Point2Di64,
    pair: IndPair,
) -> bool {
    exists|y: int| 0 <= y < x && y < entries.len() && #[trigger] entries[y] == (diff, pair)
}

/// Every index pair of the index comes, with the difference of its group,
/// from one of the entries before position `i`.
pub open spec fn groups_from_entries(
    entries: Seq<(Point2Di64, IndPair)>,
    i: int,
    index: Seq<(Point2Di64, Vec<IndPair>)>,
) -> bool {
    forall|g: int, k: int|
        0 <= g < index.len() && 0 <= k < index[g].1@.len() ==> comes_before(
            entries,
            i,
            index[g].0,
            #[trigger] index[g].1@[k],
        )
}

/// The index pairs of the entries before position `i` are in the index.
pub open spec fn entries_indexed_up_to(
    entries: Seq<(Point2Di64, IndPair)>,
    i: int,
    index: Seq<(Point2Di64, Vec<IndPair>)>,
) -> bool {
    forall|x: int|
        0 <= x < i && x < entries.len() ==> has_indexed_pair(
            index,
            (#[trigger] entries[x]).1.0 as int,
            entries[x].1.1 as int,
        )
}

/// One of the entries before position `i` holds the difference `d`.
pub open spec fn has_diff_before(entries: Seq<(Point2Di64, IndPair)>, i: int, d: Point2Di64) -> bool {
    exists|x: int| 0 <= x < i && x < entries.len() && (#[trigger] entries[x]).0 == d
}

proof fn lemma_nothing_indexed(
    points: Seq<Point2Di64>,
    max_ioi: i64,
    entries: Seq<(Point2Di64, IndPair)>,
)
    ensures
        indexed_up_to(points, max_ioi, entries, 0, Seq::<(Point2Di64, Vec<IndPair>)>::empty()),
{
    reveal(indexed_up_to);
}

/// In the sorted list, an entry before the start of a run has a smaller
/// difference than the run.
proof fn lemma_earlier_pair_run_is_smaller(entries: Seq<(Point2Di64, IndPair)>, x: int, s: int)
    requires
        pair_entries_ascending(entries),
        0 <= x < s < entries.len(),
        entries[s - 1].0 != entries[s].0,
    ensures
        entries[x].0.lex_lt(entries[s].0),
{
    assert(pair_entry_lt(entries[s - 1], entries[s]));
    if x < s - 1 {
        assert(pair_entry_lt(entries[x], entries[s - 1]));
    }
}

/// A run of entries with one difference makes a group of the index.
proof fn lemma_run_is_group(
    points: Seq<Point2Di64>,
    max_ioi: i64,
    entries: Seq<(Point2Di64, IndPair)>,
    s: int,
    e: int,
    group: (Point2Di64, Vec<IndPair>),
)
    requires
        strictly_ascending(points),
        is_valid_diff_list(points, max_ioi, entries),
        0 <= s < e <= entries.len(),
        forall|x: int| s <= x < e ==> (#[trigger] entries[x]).0 == entries[s].0,
        group.0 == entries[s].0,
        group.1@.len() == e - s,
        forall|k: int| 0 <= k < e - s ==> group.1@[k] == entries[s + k].1,
    ensures
        is_index_group(points, max_ioi, group),
{
    assert forall|k: int| 0 <= k < group.1@.len() implies is_windowed_entry(
        points,
        max_ioi,
        (group.0, #[trigger] group.1@[k]),
    ) by {
        assert(is_windowed_entry(points, max_ioi, entries[s + k]));
        assert(entries[s + k].0 == group.0);
    }
    assert forall|a: int, b: int| 0 <= a < b < group.1@.len() implies (#[trigger] group.1@[a]).0 < (
    #[trigger] group.1@[b]).0 && group.1@[a].1 < group.1@[b].1 by {
        assert(pair_entry_lt(entries[s + a], entries[s + b]));
        assert(entries[s + a].0 == entries[s].0);
        assert(entries[s + b].0 == entries[s].0);
        assert(is_windowed_entry(points, max_ioi, entries[s + a]));
        assert(is_windowed_entry(points, max_ioi, entries[s + b]));
        let ia = entries[s + a].1.0 as int;
        let ib = entries[s + b].1.0 as int;
        let ja = entries[s + a].1.1 as int;
        let jb = entries[s + b].1.1 as int;
        assert(points[ia].lex_lt(points[ib]));
        if jb <= ja {
            if jb < ja {
                assert(points[jb].lex_lt(points[ja]));
            }
        }
    }
}

/// The groups stay in ascending order when the group of a maximal run is
/// added.
proof fn lemma_groups_stay_ascending(
    points: Seq<Point2Di64>,
    max_ioi: i64,
    entries: Seq<(Point2Di64, IndPair)>,
    s: int,
    before: Seq<(Point2Di64, Vec<IndPair>)>,
    group: (Point2Di64, Vec<IndPair>),
)
    requires
        pair_entries_ascending(entries),
        indexed_up_to(points, max_ioi, entries, s, before),
        0 <= s < entries.len(),
        s > 0 ==> entries[s - 1].0 != entries[s].0,
        group.0 == entries[s].0,
    ensures
        groups_ascending(before.push(group)),
{
    reveal(indexed_up_to);
    let after = before.push(group);
    assert forall|a: int, b: int| 0 <= a < b < after.len() implies (#[trigger] after[a]).0.lex_lt(
        (#[trigger] after[b]).0,
    ) by {
        if b == before.len() {
            assert(has_diff_before(entries, s, before[a].0));
            let x = choose|x: int|
                0 <= x < s && x < entries.len() && (#[trigger] entries[x]).0 == before[a].0;
            lemma_earlier_pair_run_is_smaller(entries, x, s);
        } else {
            assert(before[a].0.lex_lt(before[b].0));
        }
    }
}

/// Every entry up to the end of a run is in the index once the group of
/// the run is added.
proof fn lemma_entries_stay_indexed(
    entries: Seq<(Point2Di64, IndPair)>,
    s: int,
    e: int,
    before: Seq<(Point2Di64, Vec<IndPair>)>,
    group: (Point2Di64, Vec<IndPair>),
)
    requires
        entries_indexed_up_to(entries, s, before),
        0 <= s < e <= entries.len(),
        group.1@.len() == e - s,
        forall|k: int| 0 <= k < e - s ==> group.1@[k] == entries[s + k].1,
    ensures
        entries_indexed_up_to(entries, e, before.push(group)),
{
    let after = before.push(group);
    assert forall|x: int| 0 <= x < e && x < entries.len() implies has_indexed_pair(
        after,
        (#[trigger] entries[x]).1.0 as int,
        entries[x].1.1 as int,
    ) by {
        if x < s {
            assert(has_indexed_pair(before, entries[x].1.0 as int, entries[x].1.1 as int));
            let (g, k) = choose|g: int, k: int|
                0 <= g < before.len() && 0 <= k < before[g].1@.len() && (
                #[trigger] before[g].1@[k]).0 == entries[x].1.0 as int && before[g].1@[k].1
                    == entries[x].1.1 as int;
            assert(after[g] == before[g]);
            assert(after[g].1@[k].0 == entries[x].1.0 as int);
        } else {
            let g = before.len() as int;
            assert(after[g] == group);
            assert(group.1@[x - s] == entries[s + (x - s)].1);
            assert(after[g].1@[x - s].0 == entries[x].1.0 as int);
        }
    }
}

/// Every pair of the index comes from an entry once the group of a run is
/// added.
proof fn lemma_groups_stay_from_entries(
    entries: Seq<(Point2Di64, IndPair)>,
    s: int,
    e: int,
    before: Seq<(Point2Di64, Vec<IndPair>)>,
    group: (Point2Di64, Vec<IndPair>),
)
    requires
        groups_from_entries(entries, s, before),
        0 <= s < e <= entries.len(),
        forall|x: int| s <= x < e ==> (#[trigger] entries[x]).0 == entries[s].0,
        group.0 == entries[s].0,
        group.1@.len() == e - s,
        forall|k: int| 0 <= k < e - s ==> group.1@[k] == entries[s + k].1,
    ensures
        groups_from_entries(entries, e, before.push(group)),
{
    let after = before.push(group);
    assert forall|g: int, k: int|
        0 <= g < after.len() && 0 <= k < after[g].1@.len() implies comes_before(
        entries,
        e,
        after[g].0,
        #[trigger] after[g].1@[k],
    ) by {
        if g < before.len() {
            assert(after[g] == before[g]);
            assert(comes_before(entries, s, before[g].0, before[g].1@[k]));
            let y = choose|y: int|
                0 <= y < s && y < entries.len() && #[trigger] entries[y] == (
                    before[g].0,
                    before[g].1@[k],
                );
            assert(0 <= y < e && entries[y] == (after[g].0, after[g].1@[k]));
        } else {
            assert(after[g] == group);
            assert(entries[s + k].0 == entries[s].0);
            assert(0 <= s + k < e && entries[s + k] == (after[g].0, after[g].1@[k]));
        }
    }
}

/// After a maximal run has been turned into a group, the entries up to the
/// end of the run are dealt with.
proof fn lemma_group_indexed(
    points: Seq<Point2Di64>,
    max_ioi: i64,
    entries: Seq<(Point2Di64, IndPair)>,
    s: int,
    e: int,
    before: Seq<(Point2Di64, Vec<IndPair>)>,
    group: (Point2Di64, Vec<IndPair>),
)
    requires
        strictly_ascending(points),
        is_valid_diff_list(points, max_ioi, entries),
        indexed_up_to(points, max_ioi, entries, s, before),
        0 <= s < e <= entries.len(),
        forall|x: int| s <= x < e ==> (#[trigger] entries[x]).0 == entries[s].0,
        s > 0 ==> entries[s - 1].0 != entries[s].0,
        group.0 == entries[s].0,
        group.1@.len() == e - s,
        forall|k: int| 0 <= k < e - s ==> group.1@[k] == entries[s + k].1,
    ensures
        indexed_up_to(points, max_ioi, entries, e, before.push(group)),
{
    lemma_run_is_group(points, max_ioi, entries, s, e, group);
    lemma_groups_stay_ascending(points, max_ioi, entries, s, before, group);
    let after = before.push(group);
    assert forall|g: int| 0 <= g < after.len() implies is_index_group(
        points,
        max_ioi,
        #[trigger] after[g],
    ) by {
        reveal(indexed_up_to);
        if g < before.len() {
            assert(after[g] == before[g]);
        }
    }
    assert forall|g: int| 0 <= g < after.len() implies has_diff_before(
        entries,
        e,
        (#[trigger] after[g]).0,
    ) by {
        reveal(indexed_up_to);
        if g < before.len() {
            assert(has_diff_before(entries, s, before[g].0));
            let x = choose|x: int|
                0 <= x < s && x < entries.len() && (#[trigger] entries[x]).0 == before[g].0;
            assert(0 <= x < e && entries[x].0 == after[g].0);
        } else {
            assert(0 <= s < e && entries[s].0 == after[g].0);
        }
    }
    assert(indexed_up_to(points, max_ioi, entries, e, after)) by {
        reveal(indexed_up_to);
    }
}

/// Once all entries are dealt with, the index is complete.
proof fn lemma_all_indexed(
    points: Seq<Point2Di64>,
    max_ioi: i64,
    entries: Seq<(Point2Di64, IndPair)>,
    index: Seq<(Point2Di64, Vec<IndPair>)>,
)
    requires
        is_windowed_diff_list(points, max_ioi, entries),
        is_grouping_of(points, max_ioi, entries, index),
    ensures
        is_diff_index(points, max_ioi, index),
{
    assert forall|i: int, j: int|
        0 <= i < j < points.len() && ioi_between(points[i], points[j])
            <= max_ioi implies #[trigger] has_indexed_pair(index, i, j) by {
        assert(has_pair_entry(entries, i, j));
        let x = choose|x: int|
            0 <= x < entries.len() && (#[trigger] entries[x]).1.0 == i && entries[x].1.1 == j;
        assert(has_indexed_pair(index, entries[x].1.0 as int, entries[x].1.1 as int));
    }
}

/// A piece of at least two points of an MTP of one round is a windowed
/// pattern.
pub proof fn lemma_piece_is_windowed(
    points: Seq<Point2Di64>,
    max_ioi: i64,
    mtps: Seq<WindowedMtp>,
    piece: SplitView,
)
    requires
        strictly_ascending(points),
        forall|g: int| 0 <= g < mtps.len() ==> is_windowed_mtp(points, #[trigger] mtps[g]),
        is_segment(piece, max_ioi),
        is_piece_of_some(mtps, piece),
        piece.0.len() >= 2,
    ensures
        is_windowed_pattern(points, max_ioi, piece.0),
{
    let g = choose|g: int| 0 <= g < mtps.len() && is_piece_of(#[trigger] mtps[g], piece);
    let mtp = mtps[g];
    assert(is_windowed_mtp(points, mtp));
    let offset = choose|offset: int|
        0 <= offset && offset + piece.0.len() <= mtp.0.pattern@.len() && piece.0
            == #[trigger] mtp.0.pattern@.subrange(offset, offset + piece.0.len()) && piece.1
            == mtp.1@.subrange(offset, offset + piece.0.len()) && piece.2 == mtp.2@.subrange(
            offset,
            offset + piece.0.len(),
        );
    assert forall|i: int| 0 <= i < piece.0.len() implies points.contains(#[trigger] piece.0[i]) by {
        assert(piece.0[i] == mtp.0.pattern@[offset + i]);
        assert(mtp.1@[offset + i] < mtp.2@[offset + i]);
        assert(mtp.0.pattern@[offset + i] == points[mtp.1@[offset + i] as int]);
    }
    assert forall|a: int, b: int| 0 <= a < b < piece.0.len() implies (#[trigger] piece.0[a]).lex_lt(
        #[trigger] piece.0[b],
    ) by {
        assert(piece.0[a] == mtp.0.pattern@[offset + a]);
        assert(piece.0[b] == mtp.0.pattern@[offset + b]);
        assert(mtp.1@[offset + a] < mtp.1@[offset + b]);
        assert(mtp.1@[offset + b] < mtp.2@[offset + b]);
        assert(mtp.0.pattern@[offset + a] == points[mtp.1@[offset + a] as int]);
        assert(mtp.0.pattern@[offset + b] == points[mtp.1@[offset + b] as int]);
        assert(points[mtp.1@[offset + a] as int].lex_lt(points[mtp.1@[offset + b] as int]));
    }
}

/// The full TEC of a piece of an MTP of one round has a translator: that
/// of the MTP.
pub proof fn lemma_piece_recurs(
    points: Seq<Point2Di64>,
    max_ioi: i64,
    mtps: Seq<WindowedMtp>,
    piece: SplitView,
    tec: TecView,
)
    requires
        strictly_ascending(points),
        forall|g: int| 0 <= g < mtps.len() ==> is_windowed_mtp(points, #[trigger] mtps[g]),
        is_piece_of_some(mtps, piece),
        tec.pattern == piece.0,
        is_full_tec_in(points, tec),
    ensures
        tec.translators.len() > 0,
{
    let g = choose|g: int| 0 <= g < mtps.len() && is_piece_of(#[trigger] mtps[g], piece);
    let mtp = mtps[g];
    assert(is_windowed_mtp(points, mtp));
    let offset = choose|offset: int|
        0 <= offset && offset + piece.0.len() <= mtp.0.pattern@.len() && piece.0
            == #[trigger] mtp.0.pattern@.subrange(offset, offset + piece.0.len()) && piece.1
            == mtp.1@.subrange(offset, offset + piece.0.len()) && piece.2 == mtp.2@.subrange(
            offset,
            offset + piece.0.len(),
        );
    let v = mtp.0.translator;
    assert forall|i: int| 0 <= i < piece.0.len() implies translated_in(
        points,
        #[trigger] piece.0[i],
        v,
    ) by {
        assert(piece.0[i] == mtp.0.pattern@[offset + i]);
        assert(mtp.1@[offset + i] < mtp.2@[offset + i]);
        assert(mtp.0.pattern@[offset + i] == points[mtp.1@[offset + i] as int]);
        assert(is_sum(points[mtp.1@[offset + i] as int], v, points[mtp.2@[offset + i] as int]));
    }
    assert(is_translator_of(points, tec.pattern, v));
    assert(mtp.1@[0] < mtp.2@[0]);
    assert(points[mtp.1@[0] as int].lex_lt(points[mtp.2@[0] as int]));
    assert(is_sum(points[mtp.1@[0] as int], v, points[mtp.2@[0] as int]));
    assert(v != Point2Di64::zero());
    assert(tec.translators.contains(v));
}

/// A pattern whose points are in a point set whose differences fit can be
/// vectorized.
pub proof fn lemma_pattern_can_vectorize(points: Seq<Point2Di64>, pattern: Seq<Point2Di64>)
    requires
        differences_fit(points),
        forall|i: int| 0 <= i < pattern.len() ==> points.contains(#[trigger] pattern[i]),
    ensures
        can_vectorize(pattern),
{
    assert forall|i: int| 0 <= i < pattern.len() - 1 implies (#[trigger] pattern[i + 1]).can_sub(
        pattern[i],
    ) by {
        assert(points.contains(pattern[i]));
        assert(points.contains(pattern[i + 1]));
        let a = choose|a: int| 0 <= a < points.len() && points[a] == pattern[i];
        let b = choose|b: int| 0 <= b < points.len() && points[b] == pattern[i + 1];
        assert(points[b].can_sub(points[a]));
    }
}

/// The difference between two neighbours of a windowed pattern is the
/// difference of a group of the index.
proof fn lemma_step_is_indexed(
    points: Seq<Point2Di64>,
    max_ioi: i64,
    index: Seq<(Point2Di64, Vec<IndPair>)>,
    pattern: Seq<Point2Di64>,
    k: int,
)
    requires
        strictly_ascending(points),
        is_diff_index(points, max_ioi, index),
        is_windowed_pattern(points, max_ioi, pattern),
        can_vectorize(pattern),
        0 <= k < pattern.len() - 1,
    ensures
        exists|g: int| 0 <= g < index.len() && (#[trigger] index[g]).0 == vectorized(pattern)[k],
{
    assert(points.contains(pattern[k]));
    assert(points.contains(pattern[k + 1]));
    let i = choose|i: int| 0 <= i < points.len() && points[i] == pattern[k];
    let j = choose|j: int| 0 <= j < points.len() && points[j] == pattern[k + 1];
    assert(pattern[k].lex_lt(pattern[k + 1]));
    if j <= i {
        if j < i {
            assert(points[j].lex_lt(points[i]));
        }
    }
    assert(ioi_between(pattern[k], pattern[k + 1]) <= max_ioi);
    assert(has_indexed_pair(index, i, j));
    let (g, x) = choose|g: int, x: int|
        0 <= g < index.len() && 0 <= x < index[g].1@.len() && (#[trigger] index[g].1@[x]).0 == i
            && index[g].1@[x].1 == j;
    assert(is_index_group(points, max_ioi, index[g]));
    assert(is_windowed_entry(points, max_ioi, (index[g].0, index[g].1@[x])));
    assert(pattern[k + 1].can_sub(pattern[k]));
    assert(index[g].0 == vectorized(pattern)[k]);
}

/// The group of the index with the difference between two points is the
/// step group for these two points.
proof fn lemma_group_is_step(
    points: Seq<Point2Di64>,
    max_ioi: i64,
    index: Seq<(Point2Di64, Vec<IndPair>)>,
    g: int,
    from: Point2Di64,
    to: Point2Di64,
)
    requires
        strictly_ascending(points),
        is_diff_index(points, max_ioi, index),
        0 <= g < index.len(),
        is_diff(to, from, index[g].0),
        from.lex_lt(to),
        ioi_between(from, to) <= max_ioi,
    ensures
        is_step_group(points, from, to, index[g].1@),
{
    let pairs = index[g].1@;
    assert(is_index_group(points, max_ioi, index[g]));
    assert forall|k: int| 0 <= k < pairs.len() implies (#[trigger] pairs[k]).0 < points.len()
        && pairs[k].1 < points.len() && same_offset(
        points[pairs[k].0 as int],
        points[pairs[k].1 as int],
        from,
        to,
    ) by {
        assert(is_windowed_entry(points, max_ioi, (index[g].0, pairs[k])));
    }
    assert forall|i: int, j: int|
        0 <= i < points.len() && 0 <= j < points.len() && same_offset(
            points[i],
            points[j],
            from,
            to,
        ) implies #[trigger] has_pair(pairs, i, j) by {
        assert(points[i].lex_lt(points[j]));
        if j <= i {
            if j < i {
                assert(points[j].lex_lt(points[i]));
            }
        }
        assert(ioi_between(points[i], points[j]) <= max_ioi);
        assert(has_indexed_pair(index, i, j));
        let (h, x) = choose|h: int, x: int|
            0 <= h < index.len() && 0 <= x < index[h].1@.len() && (#[trigger] index[h].1@[x]).0
                == i && index[h].1@[x].1 == j;
        assert(is_index_group(points, max_ioi, index[h]));
        assert(is_windowed_entry(points, max_ioi, (index[h].0, index[h].1@[x])));
        assert(index[h].0 == index[g].0);
        if h < g {
            assert(index[h].0.lex_lt(index[g].0));
        } else if g < h {
            assert(index[g].0.lex_lt(index[h].0));
        }
        assert(pairs[x].0 == i && pairs[x].1 == j);
    }
}

/// The targets of the first step group are the chain at position 1.
proof fn lemma_first_step(
    points: Seq<Point2Di64>,
    pattern: Seq<Point2Di64>,
    pairs: Seq<IndPair>,
    targets: Seq<usize>,
)
    requires
        pattern.len() >= 2,
        is_step_group(points, pattern[0], pattern[1], pairs),
        targets.len() == pairs.len(),
        forall|a: int| 0 <= a < pairs.len() ==> targets[a] == pairs[a].1,
    ensures
        is_chain_at(points, pattern, 1, targets),
{
    assert forall|a: int, b: int| 0 <= a < b < targets.len() implies #[trigger] targets[a]
        < #[trigger] targets[b] by {
        assert(pairs[a].1 < pairs[b].1);
    }
    assert forall|a: int| 0 <= a < targets.len() implies #[trigger] targets[a] < points.len() by {
        assert(pairs[a].1 < points.len());
    }
    assert forall|j: int| 0 <= j < points.len() implies (has_index(targets, j)
        <==> #[trigger] reaches(points, pattern, 1, j)) by {
        if has_index(targets, j) {
            let a = choose|a: int| 0 <= a < targets.len() && #[trigger] targets[a] == j;
            let i = pairs[a].0 as int;
            assert(same_offset(points[i], points[pairs[a].1 as int], pattern[0], pattern[1]));
            assert forall|l: int| 0 <= l <= 1 implies shifted_in(
                points,
                #[trigger] pattern[l],
                pattern[1],
                points[j],
            ) by {
                if l == 0 {
                    assert(same_offset(pattern[0], points[i], pattern[1], points[j]));
                } else {
                    assert(same_offset(pattern[1], points[j], pattern[1], points[j]));
                }
            }
        }
        if reaches(points, pattern, 1, j) {
            assert(shifted_in(points, pattern[0], pattern[1], points[j]));
            let r = choose|r: int|
                0 <= r < points.len() && same_offset(
                    pattern[0],
                    #[trigger] points[r],
                    pattern[1],
                    points[j],
                );
            assert(same_offset(points[r], points[j], pattern[0], pattern[1]));
            assert(has_pair(pairs, r, j));
            let a = choose|a: int|
                0 <= a < pairs.len() && (#[trigger] pairs[a]).0 == r && pairs[a].1 == j;
            assert(targets[a] == j);
        }
    }
}

/// Matching the chain at position `k` forward with the step group of the
/// next pair of neighbours gives the chain at position `k + 1`.
proof fn lemma_next_step(
    points: Seq<Point2Di64>,
    pattern: Seq<Point2Di64>,
    k: int,
    chain: Seq<usize>,
    pairs: Seq<IndPair>,
)
    requires
        1 <= k < pattern.len() - 1,
        is_chain_at(points, pattern, k, chain),
        is_step_group(points, pattern[k], pattern[k + 1], pairs),
    ensures
        is_chain_at(points, pattern, k + 1, matched(chain, pairs, true)),
{
    let next = matched(chain, pairs, true);
    lemma_matched_ascending(chain, pairs, true);
    assert forall|a: int| 0 <= a < next.len() implies #[trigger] next[a] < points.len() by {
        let x = choose|x: int| 0 <= x < pairs.len() && yielded(#[trigger] pairs[x], true) == next[a];
        assert(pairs[x].1 < points.len());
    }
    assert forall|j: int| 0 <= j < points.len() implies (has_index(next, j)
        <==> #[trigger] reaches(points, pattern, k + 1, j)) by {
        if has_index(next, j) {
            let b = choose|b: int| 0 <= b < next.len() && #[trigger] next[b] == j;
            lemma_matched_contains(chain, pairs, true, next[b]);
            assert(next.contains(next[b]));
            let x = choose|x: int|
                0 <= x < pairs.len() && chain.contains(tested(#[trigger] pairs[x], true))
                    && yielded(pairs[x], true) == next[b];
            let i = pairs[x].0 as int;
            assert(same_offset(points[i], points[pairs[x].1 as int], pattern[k], pattern[k + 1]));
            let c = choose|c: int| 0 <= c < chain.len() && chain[c] == pairs[x].0;
            assert(chain[c] == i);
            assert(has_index(chain, i));
            assert(reaches(points, pattern, k, i));
            assert forall|l: int| 0 <= l <= k + 1 implies shifted_in(
                points,
                #[trigger] pattern[l],
                pattern[k + 1],
                points[j],
            ) by {
                if l <= k {
                    assert(shifted_in(points, pattern[l], pattern[k], points[i]));
                    let r = choose|r: int|
                        0 <= r < points.len() && same_offset(
                            pattern[l],
                            #[trigger] points[r],
                            pattern[k],
                            points[i],
                        );
                    assert(same_offset(pattern[l], points[r], pattern[k + 1], points[j]));
                } else {
                    assert(same_offset(pattern[k + 1], points[j], pattern[k + 1], points[j]));
                }
            }
        }
        if reaches(points, pattern, k + 1, j) {
            assert(shifted_in(points, pattern[k], pattern[k + 1], points[j]));
            let i = choose|r: int|
                0 <= r < points.len() && same_offset(
                    pattern[k],
                    #[trigger] points[r],
                    pattern[k + 1],
                    points[j],
                );
            assert forall|l: int| 0 <= l <= k implies shifted_in(
                points,
                #[trigger] pattern[l],
                pattern[k],
                points[i],
            ) by {
                assert(shifted_in(points, pattern[l], pattern[k + 1], points[j]));
                let r = choose|r: int|
                    0 <= r < points.len() && same_offset(
                        pattern[l],
                        #[trigger] points[r],
                        pattern[k + 1],
                        points[j],
                    );
                assert(same_offset(pattern[l], points[r], pattern[k], points[i]));
            }
            assert(reaches(points, pattern, k, i));
            assert(has_index(chain, i));
            let c = choose|c: int| 0 <= c < chain.len() && #[trigger] chain[c] == i;
            assert(same_offset(points[i], points[j], pattern[k], pattern[k + 1]));
            assert(has_pair(pairs, i, j));
            let x = choose|x: int|
                0 <= x < pairs.len() && (#[trigger] pairs[x]).0 == i && pairs[x].1 == j;
            assert(chain[c] == pairs[x].0);
            assert(chain.contains(tested(pairs[x], true)));
            lemma_matched_contains(chain, pairs, true, pairs[x].1);
            assert(next.contains(pairs[x].1));
            let b = choose|b: int| 0 <= b < next.len() && next[b] == pairs[x].1;
            assert(next[b] == j);
        }
    }
}

/// What has been found once the first `i` targets are dealt with: the
/// non-zero translators that move the last point of the pattern onto one of
/// them.
#[verifier::opaque]
pub closed spec fn translators_up_to(
    points: Seq<Point2Di64>,
    pattern: Seq<Point2Di64>,
    targets: Seq<usize>,
    i: int,
    translators: Seq<Point2Di64>,
) -> bool {
    &&& strictly_ascending(translators)
    &&& forall|k: int|
        0 <= k < translators.len() ==> {
            &&& (#[trigger] translators[k]) != Point2Di64::zero()
            &&& is_translator_of(points, pattern, translators[k])
            &&& leads_to_target(points, pattern.last(), translators[k], targets, i)
        }
    &&& forall|a: int, t: Point2Di64|
        0 <= a < i && a < targets.len() && t != Point2Di64::zero() && #[trigger] is_sum(
            pattern.last(),
            t,
            points[#[trigger] targets[a] as int],
        ) ==> translators.contains(t)
}

/// The vector leads from `from` to the point at one of the first `i`
/// targets.
pub open spec fn leads_to_target(
    points: Seq<Point2Di64>,
    from: Point2Di64,
    vector: Point2Di64,
    targets: Seq<usize>,
    i: int,
) -> bool {
    exists|a: int|
        0 <= a < i && a < targets.len() && is_sum(from, vector, points[#[trigger] targets[a] as int])
}

proof fn lemma_no_target_done(
    points: Seq<Point2Di64>,
    pattern: Seq<Point2Di64>,
    targets: Seq<usize>,
)
    ensures
        translators_up_to(points, pattern, targets, 0, Seq::<Point2Di64>::empty()),
{
    reveal(translators_up_to);
}

/// A vector that moves the last point of the pattern onto a point of the
/// chain at the last position moves the whole pattern into the set.
proof fn lemma_chain_gives_translator(
    points: Seq<Point2Di64>,
    pattern: Seq<Point2Di64>,
    j: int,
    translator: Point2Di64,
)
    requires
        pattern.len() >= 1,
        0 <= j < points.len(),
        reaches(points, pattern, pattern.len() - 1, j),
        is_sum(pattern.last(), translator, points[j]),
    ensures
        is_translator_of(points, pattern, translator),
{
    assert forall|l: int| 0 <= l < pattern.len() implies translated_in(
        points,
        #[trigger] pattern[l],
        translator,
    ) by {
        assert(shifted_in(points, pattern[l], pattern[pattern.len() - 1], points[j]));
        let r = choose|r: int|
            0 <= r < points.len() && same_offset(
                pattern[l],
                #[trigger] points[r],
                pattern[pattern.len() - 1],
                points[j],
            );
        assert(is_sum(pattern[l], translator, points[r]));
    }
}

/// After the target at position `i` has been dealt with, the targets up to
/// it are.
proof fn lemma_target_done(
    points: Seq<Point2Di64>,
    pattern: Seq<Point2Di64>,
    targets: Seq<usize>,
    i: int,
    translator: Point2Di64,
    before: Seq<Point2Di64>,
    keep: bool,
)
    requires
        pattern.len() >= 1,
        strictly_ascending(points),
        is_chain_at(points, pattern, pattern.len() - 1, targets),
        0 <= i < targets.len(),
        translators_up_to(points, pattern, targets, i, before),
        is_sum(pattern.last(), translator, points[targets[i] as int]),
        keep <==> translator != Point2Di64::zero(),
    ensures
        translators_up_to(
            points,
            pattern,
            targets,
            i + 1,
            if keep {
                before.push(translator)
            } else {
                before
            },
        ),
{
    reveal(translators_up_to);
    let after = if keep {
        before.push(translator)
    } else {
        before
    };
    assert(targets[i] < points.len());
    assert(has_index(targets, targets[i] as int));
    assert(reaches(points, pattern, pattern.len() - 1, targets[i] as int));
    lemma_chain_gives_translator(points, pattern, targets[i] as int, translator);
    assert forall|k: int| 0 <= k < after.len() implies {
        &&& (#[trigger] after[k]) != Point2Di64::zero()
        &&& is_translator_of(points, pattern, after[k])
        &&& leads_to_target(points, pattern.last(), after[k], targets, i + 1)
    } by {
        if k < before.len() {
            assert(leads_to_target(points, pattern.last(), before[k], targets, i));
            let a = choose|a: int|
                0 <= a < i && a < targets.len() && is_sum(
                    pattern.last(),
                    before[k],
                    points[#[trigger] targets[a] as int],
                );
            assert(0 <= a < i + 1 && is_sum(pattern.last(), after[k], points[targets[a] as int]));
        } else {
            assert(0 <= i < i + 1 && is_sum(pattern.last(), after[k], points[targets[i] as int]));
        }
    }
    assert forall|x: int, y: int| 0 <= x < y < after.len() implies (#[trigger] after[x]).lex_lt(
        #[trigger] after[y],
    ) by {
        if y == before.len() {
            assert(leads_to_target(points, pattern.last(), before[x], targets, i));
            let a = choose|a: int|
                0 <= a < i && a < targets.len() && is_sum(
                    pattern.last(),
                    before[x],
                    points[#[trigger] targets[a] as int],
                );
            assert(targets[a] < targets[i]);
            assert(points[targets[a] as int].lex_lt(points[targets[i] as int]));
        } else {
            assert(before[x].lex_lt(before[y]));
        }
    }
    assert forall|a: int, t: Point2Di64|
        0 <= a < i + 1 && a < targets.len() && t != Point2Di64::zero() && #[trigger] is_sum(
            pattern.last(),
            t,
            points[#[trigger] targets[a] as int],
        ) implies after.contains(t) by {
        if a < i {
            assert(before.contains(t));
            let k = choose|k: int| 0 <= k < before.len() && before[k] == t;
            assert(after[k] == t);
        } else {
            assert(t == translator);
            assert(after[before.len() as int] == t);
        }
    }
}

/// Once all targets are dealt with, the translators found are all there
/// are.
proof fn lemma_all_targets_done(
    points: Seq<Point2Di64>,
    pattern: Seq<Point2Di64>,
    targets: Seq<usize>,
    translators: Seq<Point2Di64>,
)
    requires
        pattern.len() >= 1,
        strictly_ascending(pattern),
        forall|i: int| 0 <= i < pattern.len() ==> points.contains(#[trigger] pattern[i]),
        is_chain_at(points, pattern, pattern.len() - 1, targets),
        translators_up_to(points, pattern, targets, targets.len() as int, translators),
    ensures
        is_full_tec_in(points, TecView { pattern, translators }),
{
    reveal(translators_up_to);
    assert forall|t: Point2Di64|
        t != Point2Di64::zero() && #[trigger] is_translator_of(
            points,
            pattern,
            t,
        ) implies translators.contains(t) by {
        let last = pattern.len() - 1;
        assert(translated_in(points, pattern[last], t));
        let j = choose|j: int| 0 <= j < points.len() && is_sum(pattern[last], t, #[trigger] points[j]);
        assert forall|l: int| 0 <= l <= last implies shifted_in(
            points,
            #[trigger] pattern[l],
            pattern[last],
            points[j],
        ) by {
            assert(translated_in(points, pattern[l], t));
            let r = choose|r: int|
                0 <= r < points.len() && is_sum(pattern[l], t, #[trigger] points[r]);
            assert(same_offset(pattern[l], points[r], pattern[last], points[j]));
        }
        assert(reaches(points, pattern, last, j));
        assert(has_index(targets, j));
        let a = choose|a: int| 0 <= a < targets.len() && #[trigger] targets[a] == j;
        assert(is_sum(pattern.last(), t, points[targets[a] as int]));
    }
}

/// Pairs whose tested component is not among the indices add nothing to
/// what matching yields.
proof fn lemma_no_more_matches(
    indices: Seq<usize>,
    pairs: Seq<IndPair>,
    k: int,
    end: int,
    forward: bool,
)
    requires
        0 <= k <= end <= pairs.len(),
        forall|x: int| k <= x < end ==> !indices.contains(tested(#[trigger] pairs[x], forward)),
    ensures
        matched(indices, pairs.subrange(0, end), forward) == matched(
            indices,
            pairs.subrange(0, k),
            forward,
        ),
    decreases end - k,
{
    if k < end {
        lemma_no_more_matches(indices, pairs, k, end - 1, forward);
        assert(pairs.subrange(0, end).drop_last() =~= pairs.subrange(0, end - 1));
        assert(pairs.subrange(0, end).last() == pairs[end - 1]);
    }
}

/// What matching yields holds exactly the components yielded by the pairs
/// whose tested component is among the indices.
pub proof fn lemma_matched_contains(
    indices: Seq<usize>,
    pairs: Seq<IndPair>,
    forward: bool,
    x: usize,
)
    ensures
        matched(indices, pairs, forward).contains(x) <==> exists|k: int|
            0 <= k < pairs.len() && indices.contains(tested(#[trigger] pairs[k], forward))
                && yielded(pairs[k], forward) == x,
    decreases pairs.len(),
{
    if pairs.len() > 0 {
        let rest = pairs.drop_last();
        lemma_matched_contains(indices, rest, forward, x);
        let all = matched(indices, pairs, forward);
        let fewer = matched(indices, rest, forward);
        if all.contains(x) {
            let a = choose|a: int| 0 <= a < all.len() && all[a] == x;
            if a < fewer.len() {
                assert(fewer[a] == x);
                assert(fewer.contains(x));
                let k = choose|k: int|
                    0 <= k < rest.len() && indices.contains(tested(#[trigger] rest[k], forward))
                        && yielded(rest[k], forward) == x;
                assert(pairs[k] == rest[k]);
            } else {
                assert(indices.contains(tested(pairs[pairs.len() - 1], forward)));
            }
        }
        if exists|k: int|
            0 <= k < pairs.len() && indices.contains(tested(#[trigger] pairs[k], forward))
                && yielded(pairs[k], forward) == x {
            let k = choose|k: int|
                0 <= k < pairs.len() && indices.contains(tested(#[trigger] pairs[k], forward))
                    && yielded(pairs[k], forward) == x;
            if k < rest.len() {
                assert(rest[k] == pairs[k]);
                assert(fewer.contains(x));
                let a = choose|a: int| 0 <= a < fewer.len() && fewer[a] == x;
                assert(all[a] == x);
            } else {
                assert(all[all.len() - 1] == x);
            }
        }
    }
}

/// What matching yields from ascending pairs is ascending, and each of its
/// indices is yielded by a pair.
pub proof fn lemma_matched_ascending(indices: Seq<usize>, pairs: Seq<IndPair>, forward: bool)
    requires
        pairs_ascending(pairs),
    ensures
        indices_ascending(matched(indices, pairs, forward)),
        forall|a: int|
            0 <= a < matched(indices, pairs, forward).len() ==> exists|k: int|
                0 <= k < pairs.len() && yielded(#[trigger] pairs[k], forward) == #[trigger] matched(
                    indices,
                    pairs,
                    forward,
                )[a],
    decreases pairs.len(),
{
    if pairs.len() > 0 {
        let rest = pairs.drop_last();
        assert forall|a: int, b: int| 0 <= a < b < rest.len() implies (#[trigger] rest[a]).0 < (
        #[trigger] rest[b]).0 && rest[a].1 < rest[b].1 by {
            assert(pairs[a].0 < pairs[b].0);
        }
        lemma_matched_ascending(indices, rest, forward);
        let all = matched(indices, pairs, forward);
        let fewer = matched(indices, rest, forward);
        assert forall|a: int| 0 <= a < all.len() implies exists|k: int|
            0 <= k < pairs.len() && yielded(#[trigger] pairs[k], forward) == #[trigger] all[a] by {
            if a < fewer.len() {
                let k = choose|k: int|
                    0 <= k < rest.len() && yielded(#[trigger] rest[k], forward) == fewer[a];
                assert(pairs[k] == rest[k]);
                assert(yielded(pairs[k], forward) == all[a]);
            } else {
                assert(yielded(pairs[pairs.len() - 1], forward) == all[a]);
            }
        }
        assert forall|a: int, b: int| 0 <= a < b < all.len() implies #[trigger] all[a]
            < #[trigger] all[b] by {
            if b < fewer.len() {
                assert(fewer[a] < fewer[b]);
            } else {
                let k = choose|k: int|
                    0 <= k < rest.len() && yielded(#[trigger] rest[k], forward) == fewer[a];
                assert(pairs[k] == rest[k]);
                assert(pairs[k].0 < pairs[pairs.len() - 1].0);
            }
        }
    }
}

} // verus!
