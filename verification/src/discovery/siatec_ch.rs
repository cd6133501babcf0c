//! The SIATEC-CH algorithm: SIATEC-C with a hash map as the index of
//! differences, and with a record of how well each point is covered, by
//! which patterns that cannot add to the cover are passed over.

use crate::discovery::algorithm::is_extended_by;
use crate::discovery::algorithm::TecAlgorithm;
use crate::discovery::algorithm::TecCollector;
use crate::discovery::algorithm::TecOutput;
use crate::discovery::hash_index::group_by_hash;
use crate::discovery::hash_index::hmap_entries;
use crate::discovery::hash_index::hmap_get;
use crate::discovery::hash_index::is_generated_list;
use crate::discovery::hash_index::is_hash_grouping_of;
use crate::discovery::hash_index::HMap;
use crate::discovery::siatec::Siatec;
use crate::discovery::siatec_c::are_steps_of;
use crate::discovery::siatec_c::has_index;
use crate::discovery::siatec_c::has_pair;
use crate::discovery::siatec_c::has_pair_entry;
use crate::discovery::siatec_c::indices_ascending;
use crate::discovery::siatec_c::ioi_between;
use crate::discovery::siatec_c::is_chain_at;
use crate::discovery::siatec_c::is_generated_diff_list;
use crate::discovery::siatec_c::is_index_group;
use crate::discovery::siatec_c::are_first_windows;
use crate::discovery::siatec_c::is_siatec_c_result;
use crate::discovery::siatec_c::joined_tecs;
use crate::discovery::siatec_c::SplitView;
use crate::discovery::siatec_c::is_step_group;
use crate::discovery::siatec_c::is_windowed_entry;
use crate::discovery::siatec_c::is_windowed_pattern;
use crate::discovery::siatec_c::is_yielded_from;
use crate::discovery::siatec_c::is_windowed_tec;
use crate::discovery::siatec_c::lemma_matched_ascending;
use crate::discovery::siatec_c::lemma_pattern_can_vectorize;
use crate::discovery::siatec_c::lemma_piece_is_windowed;
use crate::discovery::siatec_c::lemma_piece_recurs;
use crate::discovery::siatec_c::matched;
use crate::discovery::siatec_c::pair_generated_before;
use crate::discovery::siatec_c::pairs_ascending;
use crate::discovery::siatec_c::rounds_left;
use crate::discovery::siatec_c::same_offset;
use crate::discovery::siatec_c::split_view;
use crate::discovery::siatec_c::split_views;
use crate::discovery::siatec_c::yielded;
use crate::discovery::siatec_c::IndPair;
use crate::discovery::siatec_c::SiatecC;
use crate::discovery::windows::are_all_splits_of;
use crate::discovery::windows::are_splits_of;
use crate::discovery::windows::bounds_in_range;
use crate::discovery::windows::is_forward_entry;
use crate::discovery::windows::is_window_round;
use crate::discovery::windows::is_windowed_mtp;
use crate::discovery::windows::window_advanced;
use crate::discovery::windows::window_open;
use crate::discovery::windows::windows_begin_after;
use crate::discovery::windows::WindowedMtp;
use crate::point_set::mtp::Mtp;
use crate::point_set::pattern::can_vectorize;
use crate::point_set::pattern::vectorized;
use crate::point_set::pattern::Pattern;
use crate::point_set::point::Point2Di64;
use crate::point_set::set::differences_fit;
use crate::point_set::set::strictly_ascending;
use crate::point_set::set::PointSet;
use crate::point_set::tec::is_full_tec_in;
use crate::point_set::tec::is_tec_in;
use crate::point_set::tec::tec_views;
use crate::point_set::tec::Tec;
use crate::point_set::tec::TecView;
use vstd::prelude::*;

verus! {

/// The map holds, for every difference between two points of which the
/// second comes after the first and at most `max_ioi` later in onset, the
/// index pairs of all such pairs of points, in ascending order.
pub open spec fn is_hash_index(
    points: Seq<Point2Di64>,
    max_ioi: i64,
    index: Map<Point2Di64, Vec<IndPair>>,
) -> bool {
    &&& forall|key: Point2Di64|
        #[trigger] index.contains_key(key) ==> is_index_group(points, max_ioi, (key, index[key]))
    &&& forall|i: int, j: int|
        0 <= i < j < points.len() && ioi_between(points[i], points[j]) <= max_ioi
            ==> #[trigger] has_hashed_pair(index, points, i, j)
}

/// The map holds the index pair `(i, j)` under the difference between the
/// two points.
pub open spec fn has_hashed_pair(
    index: Map<Point2Di64, Vec<IndPair>>,
    points: Seq<Point2Di64>,
    i: int,
    j: int,
) -> bool {
    index.contains_key(points[j].minus(points[i])) && has_pair(
        index[points[j].minus(points[i])]@,
        i,
        j,
    )
}

/// Some index among `indices` has a cover below `size`.
pub open spec fn can_improve(cover: Seq<usize>, indices: Seq<usize>, size: usize) -> bool {
    exists|k: int| 0 <= k < indices.len() && cover[#[trigger] indices[k] as int] < size
}

/// All indices lie within the cover.
pub open spec fn indices_within(indices: Seq<usize>, count: int) -> bool {
    forall|k: int| 0 <= k < indices.len() ==> #[trigger] indices[k] < count
}

/// The cover with every entry at one of `indices` raised to `size` where it
/// was lower.
pub open spec fn raised(cover: Seq<usize>, indices: Seq<usize>, size: usize) -> Seq<usize> {
    Seq::new(
        cover.len(),
        |c: int|
            if has_index(indices, c) && cover[c] < size {
                size
            } else {
                cover[c]
            },
    )
}

/// What the cover becomes when the first `k` steps are walked backward
/// from `indices`: after each step back, the cover of the points reached is
/// raised to `size`.
pub open spec fn cover_after(
    cover: Seq<usize>,
    steps: Seq<Seq<IndPair>>,
    k: int,
    indices: Seq<usize>,
    size: usize,
) -> Seq<usize>
    decreases k,
{
    if k <= 0 {
        cover
    } else {
        let reached = matched(indices, steps[k - 1], false);
        cover_after(raised(cover, reached, size), steps, k - 1, reached, size)
    }
}

/// The index pairs that the given steps hold.
pub open spec fn step_views(steps: Seq<&Vec<IndPair>>) -> Seq<Seq<IndPair>> {
    Seq::new(steps.len(), |k: int| steps[k]@)
}

/// Each of `steps` is the step group for one pair of neighbours in the
/// pattern.
pub open spec fn are_step_groups_of(
    points: Seq<Point2Di64>,
    pattern: Seq<Point2Di64>,
    steps: Seq<Seq<IndPair>>,
) -> bool {
    &&& steps.len() == pattern.len() - 1
    &&& forall|k: int|
        0 <= k < steps.len() ==> is_step_group(
            points,
            pattern[k],
            pattern[k + 1],
            #[trigger] steps[k],
        )
}

/// How the cover changes when the TEC of a pattern is taken: the steps of
/// the pattern are walked backward from the points onto which the last
/// point of the pattern can be moved together with all the others, and the
/// cover of every point reached on the way is raised to the size of the
/// pattern.
pub open spec fn is_cover_update(
    points: Seq<Point2Di64>,
    pattern: Seq<Point2Di64>,
    cover: Seq<usize>,
    next: Seq<usize>,
) -> bool {
    exists|steps: Seq<Seq<IndPair>>, targets: Seq<usize>|
        #![trigger are_step_groups_of(points, pattern, steps), is_chain_at(points, pattern, pattern.len() - 1, targets)]
        are_step_groups_of(points, pattern, steps) && is_chain_at(
            points,
            pattern,
            pattern.len() - 1,
            targets,
        ) && next == cover_after(cover, steps, steps.len() as int, targets, pattern.len() as usize)
}

/// The first index of every pair of the steps lies within `count`.
pub open spec fn sources_within(steps: Seq<&Vec<IndPair>>, count: int) -> bool {
    forall|k: int, x: int|
        0 <= k < steps.len() && 0 <= x < steps[k]@.len() ==> (#[trigger] steps[k]@[x]).0 < count
}

/// The pairs of each step are in ascending order.
pub open spec fn steps_ascending(steps: Seq<&Vec<IndPair>>) -> bool {
    forall|k: int| 0 <= k < steps.len() ==> pairs_ascending((#[trigger] steps[k])@)
}

/// The MTP holds the index pairs of the group: its source and target
/// indices are the first and second components of the pairs.
pub open spec fn mtp_matches_group(mtp: WindowedMtp, pairs: Seq<IndPair>) -> bool {
    &&& mtp.1@.len() == pairs.len()
    &&& mtp.2@.len() == pairs.len()
    &&& forall|k: int| 0 <= k < pairs.len() ==> mtp.1@[k] == (#[trigger] pairs[k]).0
    &&& forall|k: int| 0 <= k < pairs.len() ==> mtp.2@[k] == (#[trigger] pairs[k]).1
}

/// One of the MTPs has the translator `key`.
pub open spec fn has_mtp_for(mtps: Seq<WindowedMtp>, key: Point2Di64) -> bool {
    exists|g: int| 0 <= g < mtps.len() && (#[trigger] mtps[g]).0.translator == key
}

/// The MTPs are those of the groups, in some order: one for each
/// difference that the map holds, with the index pairs that the map holds
/// for it.
pub open spec fn are_hashed_mtps_of(
    points: Seq<Point2Di64>,
    groups: Map<Point2Di64, Vec<IndPair>>,
    mtps: Seq<WindowedMtp>,
) -> bool {
    &&& forall|g: int| 0 <= g < mtps.len() ==> is_windowed_mtp(points, #[trigger] mtps[g])
    &&& forall|g: int|
        0 <= g < mtps.len() ==> groups.contains_key((#[trigger] mtps[g]).0.translator)
            && mtp_matches_group(mtps[g], groups[mtps[g].0.translator]@)
    &&& forall|a: int, b: int|
        0 <= a < b < mtps.len() ==> (#[trigger] mtps[a]).0.translator != (
        #[trigger] mtps[b]).0.translator
    &&& forall|key: Point2Di64| #[trigger] groups.contains_key(key) ==> has_mtp_for(mtps, key)
}

/// What is done with one split pattern: where it has at least two points
/// and some of its source or target points is covered by smaller patterns
/// only, its TEC is taken and the cover is updated, and otherwise nothing
/// happens.
pub open spec fn is_cover_step(
    points: Seq<Point2Di64>,
    split: SplitView,
    cover: Seq<usize>,
    next: Seq<usize>,
    emitted: Seq<TecView>,
) -> bool {
    if split.0.len() >= 2 && (can_improve(cover, split.1, split.0.len() as usize) || can_improve(
        cover,
        split.2,
        split.0.len() as usize,
    )) {
        emitted.len() == 1 && emitted[0].pattern == split.0 && is_full_tec_in(points, emitted[0])
            && is_cover_update(points, split.0, cover, next)
    } else {
        emitted.len() == 0 && next == cover
    }
}

/// The split patterns are dealt with one after the other: `covers` holds
/// the cover before each of them and after the last, `outputs` what each of
/// them yields.
pub open spec fn are_cover_steps(
    points: Seq<Point2Di64>,
    splits: Seq<SplitView>,
    covers: Seq<Seq<usize>>,
    outputs: Seq<Seq<TecView>>,
) -> bool {
    &&& outputs.len() <= splits.len()
    &&& covers.len() == outputs.len() + 1
    &&& forall|k: int|
        0 <= k < outputs.len() ==> is_cover_step(
            points,
            splits[k],
            covers[k],
            covers[k + 1],
            #[trigger] outputs[k],
        )
}

/// One round of SIATEC-CH with all that it computes on the way: the
/// differences within the windows, these differences grouped, their MTPs,
/// the split patterns of the MTPs, and the covers and TECs of the split
/// patterns.
pub open spec fn is_hashed_round_with(
    points: Seq<Point2Di64>,
    max_ioi: i64,
    targets: Seq<usize>,
    bounds: Seq<i128>,
    next_targets: Seq<usize>,
    next_bounds: Seq<i128>,
    entries: Seq<(Point2Di64, IndPair)>,
    groups: Map<Point2Di64, Vec<IndPair>>,
    mtps: Seq<WindowedMtp>,
    splits: Seq<SplitView>,
    covers: Seq<Seq<usize>>,
    outputs: Seq<Seq<TecView>>,
) -> bool {
    &&& is_window_round(points, max_ioi, targets, bounds, next_targets, next_bounds, entries)
    &&& is_hash_grouping_of(points, i64::MAX, entries, groups)
    &&& are_hashed_mtps_of(points, groups, mtps)
    &&& are_all_splits_of(mtps, max_ioi, splits)
    &&& are_cover_steps(points, splits, covers, outputs)
    &&& outputs.len() == splits.len()
}

/// One round of SIATEC-CH: it moves the windows, raises the cover and
/// yields the TECs of the split patterns that can add to the cover. The
/// MTPs of the round are dealt with in the order in which the hash map
/// hands them out.
pub open spec fn is_hashed_round(
    points: Seq<Point2Di64>,
    max_ioi: i64,
    targets: Seq<usize>,
    bounds: Seq<i128>,
    cover: Seq<usize>,
    next_targets: Seq<usize>,
    next_bounds: Seq<i128>,
    next_cover: Seq<usize>,
    tecs: Seq<TecView>,
) -> bool {
    exists|
        entries: Seq<(Point2Di64, IndPair)>,
        groups: Map<Point2Di64, Vec<IndPair>>,
        mtps: Seq<WindowedMtp>,
        splits: Seq<SplitView>,
        covers: Seq<Seq<usize>>,
        outputs: Seq<Seq<TecView>>,
    |
        #![trigger is_hashed_round_with(points, max_ioi, targets, bounds, next_targets, next_bounds, entries, groups, mtps, splits, covers, outputs)]
        is_hashed_round_with(
            points,
            max_ioi,
            targets,
            bounds,
            next_targets,
            next_bounds,
            entries,
            groups,
            mtps,
            splits,
            covers,
            outputs,
        ) && covers[0] == cover && covers.last() == next_cover && tecs == joined_tecs(outputs)
}

/// The rounds of SIATEC-CH: `targets`, `bounds` and `covers` hold the
/// windows and the cover before each round and after the last, `outputs`
/// the TECs of each round. The cover begins with zero for every point. A
/// round is run as long as the window of the first point has not reached
/// the end of the set.
pub open spec fn are_hashed_rounds(
    points: Seq<Point2Di64>,
    max_ioi: i64,
    targets: Seq<Seq<usize>>,
    bounds: Seq<Seq<i128>>,
    covers: Seq<Seq<usize>>,
    outputs: Seq<Seq<TecView>>,
) -> bool {
    &&& targets.len() == outputs.len() + 1
    &&& bounds.len() == outputs.len() + 1
    &&& covers.len() == outputs.len() + 1
    &&& are_first_windows(points, max_ioi, targets[0], bounds[0])
    &&& covers[0].len() == points.len()
    &&& forall|i: int| 0 <= i < covers[0].len() ==> #[trigger] covers[0][i] == 0
    &&& forall|r: int| 0 <= r < outputs.len() ==> (#[trigger] targets[r])[0] < points.len()
    &&& forall|r: int|
        0 <= r < outputs.len() ==> is_hashed_round(
            points,
            max_ioi,
            targets[r],
            bounds[r],
            covers[r],
            targets[r + 1],
            bounds[r + 1],
            covers[r + 1],
            #[trigger] outputs[r],
        )
}

/// What a run of SIATEC-CH produces: nothing for fewer than two points,
/// and otherwise the TECs of its rounds, which go on until the window of
/// the first point has reached the end of the set.
pub open spec fn is_siatec_ch_run(points: Seq<Point2Di64>, max_ioi: i64, tecs: Seq<TecView>) -> bool {
    if points.len() < 2 {
        tecs.len() == 0
    } else {
        exists|
            targets: Seq<Seq<usize>>,
            bounds: Seq<Seq<i128>>,
            covers: Seq<Seq<usize>>,
            outputs: Seq<Seq<TecView>>,
        |
            #![trigger are_hashed_rounds(points, max_ioi, targets, bounds, covers, outputs)]
            are_hashed_rounds(points, max_ioi, targets, bounds, covers, outputs)
                && targets.last()[0] >= points.len() && tecs == joined_tecs(outputs)
    }
}

/// Implements the SIATEC-CH algorithm.
pub struct SiatecCH {
    /// Maximum allowed inter-onset-interval (IOI) between successive points
    /// in a pattern.
    pub max_ioi: i64,
}

impl TecAlgorithm for SiatecCH {
    open spec fn accepts(&self, points: Seq<Point2Di64>) -> bool {
        differences_fit(points) && self.max_ioi > 0
    }

    open spec fn produces(&self, points: Seq<Point2Di64>, tecs: Seq<TecView>) -> bool {
        is_siatec_c_result(points, self.max_ioi, tecs) && is_siatec_ch_run(
            points,
            self.max_ioi,
            tecs,
        )
    }

    open spec fn gives_patterns(&self) -> bool {
        true
    }

    fn compute_tecs(&self, point_set: &PointSet) -> (tecs: Vec<Tec>) {
        let mut collector = TecCollector { tecs: Vec::new() };
        self.compute_tecs_to_output(point_set, &mut collector);
        proof {
            let found = choose|found: Seq<TecView>|
                #![trigger self.produces(point_set@, found)]
                self.produces(point_set@, found) && is_extended_by(
                    collector.received(),
                    Seq::<TecView>::empty(),
                    found,
                ) && forall|k: int|
                    0 <= k < found.len() ==> is_tec_in(point_set@, #[trigger] found[k]);
            assert(tec_views(Seq::<Tec>::empty()) =~= Seq::<TecView>::empty());
            assert(Seq::<TecView>::empty() + found =~= found);
            assert forall|k: int| 0 <= k < collector.tecs@.len() implies is_tec_in(
                point_set@,
                #[trigger] collector.tecs@[k]@,
            ) by {
                assert(found[k] == collector.tecs@[k]@);
            }
        }
        collector.tecs
    }

    fn compute_tecs_to_output<O: TecOutput>(&self, point_set: &PointSet, on_output: &mut O) {
        let diff_index = self.compute_diff_index(point_set);
        self.compute_split_mtp_tecs(point_set, &diff_index, on_output);
        proof {
            let found = choose|found: Seq<TecView>|
                #![trigger is_siatec_c_result(point_set@, self.max_ioi, found)]
                is_siatec_c_result(point_set@, self.max_ioi, found) && is_siatec_ch_run(
                    point_set@,
                    self.max_ioi,
                    found,
                ) && is_extended_by(on_output.received(), old(on_output).received(), found);
            assert(self.produces(point_set@, found));
            assert forall|k: int| 0 <= k < found.len() implies is_tec_in(
                point_set@,
                #[trigger] found[k],
            ) by {
                assert(is_windowed_tec(point_set@, self.max_ioi, found[k]));
            }
        }
    }
}

impl SiatecCH {
    /// Returns a hash map of difference - index-pair-vector pairs.
    pub fn compute_diff_index(&self, point_set: &PointSet) -> (diff_index: HMap)
        requires
            differences_fit(point_set@),
        ensures
            is_hash_index(point_set@, self.max_ioi, diff_index@),
    {
        let forward_diffs = SiatecC::windowed_differences(point_set, self.max_ioi);
        let diff_index = group_by_hash(point_set, self.max_ioi, &forward_diffs);
        proof {
            lemma_grouping_is_index(point_set@, self.max_ioi, forward_diffs@, diff_index@);
        }
        diff_index
    }

    /// Computes the forward difference vectors for all points, such that,
    /// the target points are all within a restricted size window, and
    /// groups them by difference. Each source point has its own window
    /// position, so that difference vectors of the same size are always
    /// computed during the same iteration.
    pub fn compute_forward_diffs_within_window(
        &self,
        point_set: &PointSet,
        target_indices: &mut Vec<usize>,
        window_bounds: &mut Vec<i128>,
    ) -> (forward_diffs: HMap)
        requires
            self.max_ioi > 0,
            differences_fit(point_set@),
            old(target_indices)@.len() == point_set@.len(),
            old(window_bounds)@.len() == point_set@.len(),
            windows_begin_after(old(target_indices)@),
            bounds_in_range(old(window_bounds)@),
        ensures
            exists|entries: Seq<(Point2Di64, IndPair)>|
                #![trigger is_hash_grouping_of(point_set@, i64::MAX, entries, forward_diffs@)]
                is_hash_grouping_of(point_set@, i64::MAX, entries, forward_diffs@)
                    && is_window_round(
                    point_set@,
                    self.max_ioi,
                    old(target_indices)@,
                    old(window_bounds)@,
                    final(target_indices)@,
                    final(window_bounds)@,
                    entries,
                ),
            windows_begin_after(final(target_indices)@),
            bounds_in_range(final(window_bounds)@),
    {
        let windowed = SiatecC { max_ioi: self.max_ioi };
        let entries = windowed.compute_forward_diffs_within_window(
            point_set,
            target_indices,
            window_bounds,
        );
        proof {
            lemma_round_is_generated(point_set@, entries@);
        }
        group_by_hash(point_set, i64::MAX, &entries)
    }

    /// Partitions the forward diffs to MTPs and returns a vector of
    /// triples, where:
    /// 0. MTP
    /// 1. source indices: the indices that form the MTP
    /// 2. target indices: the indices of the points that form the
    ///    translated MTP
    ///
    /// The MTPs come in the order in which the hash map hands out its
    /// entries.
    pub fn partition_to_mtps(point_set: &PointSet, forward_diffs: &HMap) -> (mtps: Vec<WindowedMtp>)
        requires
            forall|key: Point2Di64|
                #[trigger] forward_diffs@.contains_key(key) ==> is_index_group(
                    point_set@,
                    i64::MAX,
                    (key, forward_diffs@[key]),
                ),
        ensures
            are_hashed_mtps_of(point_set@, forward_diffs@, mtps@),
    {
        let ghost points = point_set@;
        let groups = hmap_entries(forward_diffs);
        let mut mtps: Vec<WindowedMtp> = Vec::with_capacity(groups.len());
        let mut g: usize = 0;
        while g < groups.len()
            invariant
                g <= groups@.len(),
                points == point_set@,
                forall|k: int|
                    0 <= k < groups@.len() ==> forward_diffs@.contains_key(
                        (#[trigger] groups@[k]).0,
                    ) && *groups@[k].1 == forward_diffs@[groups@[k].0],
                forall|key: Point2Di64|
                    #[trigger] forward_diffs@.contains_key(key) ==> is_index_group(
                        points,
                        i64::MAX,
                        (key, forward_diffs@[key]),
                    ),
                mtps@.len() == g,
                forall|x: int|
                    0 <= x < g ==> is_windowed_mtp(points, #[trigger] mtps@[x])
                        && mtps@[x].0.translator == groups@[x].0 && mtp_matches_group(
                        mtps@[x],
                        forward_diffs@[groups@[x].0]@,
                    ),
            decreases groups@.len() - g,
        {
            let translator = groups[g].0;
            let pairs = groups[g].1;
            let m = pairs.len();
            let mut source_indices: Vec<usize> = Vec::with_capacity(m);
            let mut target_indices: Vec<usize> = Vec::with_capacity(m);
            let mut k: usize = 0;
            while k < m
                invariant
                    k <= m,
                    m == pairs@.len(),
                    source_indices@.len() == k,
                    target_indices@.len() == k,
                    forall|x: int| 0 <= x < k ==> source_indices@[x] == pairs@[x].0,
                    forall|x: int| 0 <= x < k ==> target_indices@[x] == pairs@[x].1,
                decreases m - k,
            {
                source_indices.push(pairs[k].0);
                target_indices.push(pairs[k].1);
                k += 1;
            }
            proof {
                assert(forward_diffs@.contains_key(groups@[g as int].0));
                assert(is_index_group(points, i64::MAX, (translator, forward_diffs@[translator])));
                assert forall|x: int| 0 <= x < source_indices@.len() implies source_indices@[x]
                    < points.len() by {
                    assert(is_windowed_entry(points, i64::MAX, (translator, pairs@[x])));
                }
            }
            let pattern = point_set.get_pattern(&source_indices);
            let ghost before = mtps@;
            mtps.push((Mtp { translator, pattern }, source_indices, target_indices));
            proof {
                let added = mtps@[g as int];
                assert forall|x: int| 0 <= x < added.1@.len() implies {
                    &&& (#[trigger] added.1@[x]) < added.2@[x]
                    &&& added.2@[x] < points.len()
                    &&& added.0.pattern@[x] == points[added.1@[x] as int]
                    &&& crate::point_set::point::is_sum(
                        points[added.1@[x] as int],
                        added.0.translator,
                        points[added.2@[x] as int],
                    )
                } by {
                    assert(is_windowed_entry(points, i64::MAX, (translator, pairs@[x])));
                }
                assert forall|a: int, b: int| 0 <= a < b < added.1@.len() implies #[trigger] added.1@[a]
                    < #[trigger] added.1@[b] by {
                    assert(pairs@[a].0 < pairs@[b].0);
                }
                assert(mtp_matches_group(added, pairs@));
                assert forall|x: int| 0 <= x < g + 1 implies is_windowed_mtp(
                    points,
                    #[trigger] mtps@[x],
                ) && mtps@[x].0.translator == groups@[x].0 && mtp_matches_group(
                    mtps@[x],
                    forward_diffs@[groups@[x].0]@,
                ) by {
                    if x < g {
                        assert(mtps@[x] == before[x]);
                    }
                }
            }
            g += 1;
        }
        proof {
            assert forall|a: int, b: int| 0 <= a < b < mtps@.len() implies (
            #[trigger] mtps@[a]).0.translator != (#[trigger] mtps@[b]).0.translator by {
                assert(groups@[a].0 != groups@[b].0);
            }
            assert forall|key: Point2Di64| #[trigger] forward_diffs@.contains_key(key) implies has_mtp_for(
                mtps@,
                key,
            ) by {
                let k = choose|k: int| 0 <= k < groups@.len() && (#[trigger] groups@[k]).0 == key;
                assert(mtps@[k].0.translator == key);
            }
            assert forall|g: int| 0 <= g < mtps@.len() implies forward_diffs@.contains_key(
                (#[trigger] mtps@[g]).0.translator,
            ) && mtp_matches_group(mtps@[g], forward_diffs@[mtps@[g].0.translator]@) by {
                assert(forward_diffs@.contains_key(groups@[g].0));
            }
        }
        mtps
    }

    /// Looks the difference up in the index and returns the index pairs
    /// that the index holds for it. The index must hold the difference: a
    /// caller that has not been verified ends the program with a miss.
    pub fn find_indices<'a>(diff_index: &'a HMap, translation: &Point2Di64) -> (found: &'a Vec<
        IndPair,
    >)
        requires
            diff_index@.contains_key(*translation),
        ensures
            *found == diff_index@[*translation],
    {
        match hmap_get(diff_index, translation) {
            Some(pairs) => pairs,
            None => unreached(),
        }
    }

    /// Looks up, for each pair of neighbours in the pattern, the index
    /// pairs that the index holds for the difference between the two.
    pub fn find_steps<'a>(
        &self,
        pattern: &Pattern,
        diff_index: &'a HMap,
        point_set: &PointSet,
    ) -> (steps: Vec<&'a Vec<IndPair>>)
        requires
            differences_fit(point_set@),
            is_hash_index(point_set@, self.max_ioi, diff_index@),
            is_windowed_pattern(point_set@, self.max_ioi, pattern@),
        ensures
            are_steps_of(point_set@, pattern@, steps@),
    {
        proof {
            use_type_invariant(point_set);
            lemma_pattern_can_vectorize(point_set@, pattern@);
        }
        let ghost points = point_set@;
        let ghost shape = pattern@;
        let vectorized_pattern = pattern.vectorize();
        let count = vectorized_pattern.len();
        let mut steps: Vec<&Vec<IndPair>> = Vec::with_capacity(count);
        let mut k: usize = 0;
        while k < count
            invariant
                k <= count,
                count == shape.len() - 1,
                points == point_set@,
                shape == pattern@,
                strictly_ascending(points),
                differences_fit(points),
                is_hash_index(points, self.max_ioi, diff_index@),
                is_windowed_pattern(points, self.max_ioi, shape),
                can_vectorize(shape),
                vectorized_pattern@ == vectorized(shape),
                steps@.len() == k,
                forall|s: int|
                    0 <= s < k ==> is_step_group(
                        points,
                        shape[s],
                        shape[s + 1],
                        (#[trigger] steps@[s])@,
                    ),
            decreases count - k,
        {
            let diff = vectorized_pattern[k];
            proof {
                lemma_step_is_hashed(points, self.max_ioi, diff_index@, shape, k as int);
            }
            let pairs = SiatecCH::find_indices(diff_index, &diff);
            steps.push(pairs);
            k += 1;
        }
        steps
    }

    /// Returns true if some point of the pattern or of its translated copy
    /// is not yet covered by a pattern of at least the given size.
    pub fn improves_cover(
        cover: &Vec<usize>,
        source_ind: &Vec<usize>,
        target_ind: &Vec<usize>,
        pattern_len: usize,
    ) -> (improves: bool)
        requires
            indices_within(source_ind@, cover@.len() as int),
            indices_within(target_ind@, cover@.len() as int),
        ensures
            improves == (can_improve(cover@, source_ind@, pattern_len) || can_improve(
                cover@,
                target_ind@,
                pattern_len,
            )),
    {
        let mut k: usize = 0;
        while k < source_ind.len()
            invariant
                k <= source_ind@.len(),
                indices_within(source_ind@, cover@.len() as int),
                forall|x: int| 0 <= x < k ==> cover@[#[trigger] source_ind@[x] as int] >= pattern_len,
            decreases source_ind@.len() - k,
        {
            if cover[source_ind[k]] < pattern_len {
                return true;
            }
            k += 1;
        }
        let mut k: usize = 0;
        while k < target_ind.len()
            invariant
                k <= target_ind@.len(),
                indices_within(target_ind@, cover@.len() as int),
                !can_improve(cover@, source_ind@, pattern_len),
                forall|x: int| 0 <= x < k ==> cover@[#[trigger] target_ind@[x] as int] >= pattern_len,
            decreases target_ind@.len() - k,
        {
            if cover[target_ind[k]] < pattern_len {
                return true;
            }
            k += 1;
        }
        false
    }

    /// Finds all translators of the pattern, as SIATEC-C does, and records
    /// in the cover that the points of the pattern and of its translated
    /// copies are covered by a pattern of this size.
    pub fn find_translators_update_cover(
        &self,
        pattern: &Pattern,
        diff_index: &HMap,
        point_set: &PointSet,
        cover: &mut Vec<usize>,
    ) -> (translators: Vec<Point2Di64>)
        requires
            differences_fit(point_set@),
            is_hash_index(point_set@, self.max_ioi, diff_index@),
            is_windowed_pattern(point_set@, self.max_ioi, pattern@),
            old(cover)@.len() == point_set@.len(),
        ensures
            crate::point_set::tec::is_full_tec_in(
                point_set@,
                TecView { pattern: pattern@, translators: translators@ },
            ),
            final(cover)@.len() == old(cover)@.len(),
            forall|c: int|
                0 <= c < old(cover)@.len() ==> #[trigger] final(cover)@[c] >= old(cover)@[c],
            forall|c: int|
                0 <= c < old(cover)@.len() ==> #[trigger] final(cover)@[c] == old(cover)@[c]
                    || final(cover)@[c] == pattern@.len(),
            is_cover_update(point_set@, pattern@, old(cover)@, final(cover)@),
    {
        let steps = self.find_steps(pattern, diff_index, point_set);
        let target_indices = SiatecC::follow_steps(point_set, pattern, &steps);
        let translators = SiatecC::translators_onto(point_set, pattern, &target_indices);
        proof {
            assert forall|k: int| 0 <= k < steps@.len() implies pairs_ascending(
                (#[trigger] steps@[k])@,
            ) && forall|x: int|
                0 <= x < steps@[k]@.len() ==> (#[trigger] steps@[k]@[x]).0 < point_set@.len() by {
                assert(is_step_group(point_set@, pattern@[k], pattern@[k + 1], steps@[k]@));
            }
            lemma_cover_never_falls(
                cover@,
                step_views(steps@),
                steps@.len() as int,
                target_indices@,
                pattern@.len() as usize,
            );
            assert(are_step_groups_of(point_set@, pattern@, step_views(steps@)));
        }
        let ghost targets = target_indices@;
        // Update cover
        SiatecCH::update_cover(pattern.len(), &steps, cover, target_indices);
        proof {
            assert(is_chain_at(point_set@, pattern@, pattern@.len() - 1, targets));
            assert(is_cover_update(point_set@, pattern@, old(cover)@, cover@));
        }
        translators
    }

    /// Walks the steps of a pattern backward from the given indices and
    /// raises the cover of every point reached on the way to the size of
    /// the pattern, where it was lower. No entry of the cover is ever
    /// lowered. Which points are reached is stated for indices and steps in
    /// ascending order, as the algorithm has them.
    pub fn update_cover(
        pattern_len: usize,
        steps: &Vec<&Vec<IndPair>>,
        cover: &mut Vec<usize>,
        init_cover_ind: Vec<usize>,
    )
        requires
            sources_within(steps@, old(cover)@.len() as int),
        ensures
            final(cover)@.len() == old(cover)@.len(),
            forall|c: int|
                0 <= c < old(cover)@.len() ==> #[trigger] final(cover)@[c] >= old(cover)@[c],
            forall|c: int|
                0 <= c < old(cover)@.len() ==> #[trigger] final(cover)@[c] == old(cover)@[c]
                    || final(cover)@[c] == pattern_len,
            indices_ascending(init_cover_ind@) && steps_ascending(steps@) ==> final(cover)@
                == cover_after(
                old(cover)@,
                step_views(steps@),
                steps@.len() as int,
                init_cover_ind@,
                pattern_len,
            ),
    {
        let ghost count = cover@.len() as int;
        let ghost sorted = indices_ascending(init_cover_ind@) && steps_ascending(steps@);
        let mut cover_indices = init_cover_ind;
        let mut i: usize = steps.len();
        while i > 0
            invariant
                i <= steps@.len(),
                cover@.len() == count,
                count == old(cover)@.len(),
                sources_within(steps@, count),
                sorted ==> steps_ascending(steps@),
                sorted ==> indices_ascending(cover_indices@),
                forall|c: int| 0 <= c < count ==> #[trigger] cover@[c] >= old(cover)@[c],
                forall|c: int|
                    0 <= c < count ==> #[trigger] cover@[c] == old(cover)@[c] || cover@[c]
                        == pattern_len,
                sorted ==> cover_after(
                    cover@,
                    step_views(steps@),
                    i as int,
                    cover_indices@,
                    pattern_len,
                ) == cover_after(
                    old(cover)@,
                    step_views(steps@),
                    steps@.len() as int,
                    init_cover_ind@,
                    pattern_len,
                ),
            decreases i,
        {
            let translatable_indices = steps[i - 1];
            let ghost before_indices = cover_indices@;
            proof {
                assert(step_views(steps@)[i - 1] == translatable_indices@);
            }
            cover_indices = SiatecC::match_index_pairs_backward(
                &cover_indices,
                translatable_indices,
            );
            proof {
                if sorted {
                    assert(pairs_ascending(steps@[i - 1]@));
                    lemma_matched_ascending(before_indices, translatable_indices@, false);
                }
                assert forall|x: int| 0 <= x < cover_indices@.len() implies #[trigger] cover_indices@[x]
                    < count by {
                    assert(is_yielded_from(translatable_indices@, false, cover_indices@[x]));
                    let y = choose|y: int|
                        0 <= y < translatable_indices@.len() && yielded(
                            #[trigger] translatable_indices@[y],
                            false,
                        ) == cover_indices@[x];
                    assert(steps@[i - 1]@[y].0 < count);
                }
            }
            let ghost before = cover@;
            let mut x: usize = 0;
            while x < cover_indices.len()
                invariant
                    x <= cover_indices@.len(),
                    cover@.len() == count,
                    before.len() == count,
                    indices_within(cover_indices@, count),
                    forall|c: int|
                        0 <= c < count ==> #[trigger] cover@[c] == if has_index(
                            cover_indices@.subrange(0, x as int),
                            c,
                        ) && before[c] < pattern_len {
                            pattern_len
                        } else {
                            before[c]
                        },
                decreases cover_indices@.len() - x,
            {
                let c = cover_indices[x];
                let ghost cover_before = cover@;
                let ghost done = cover_indices@.subrange(0, x as int);
                let ghost more = cover_indices@.subrange(0, x + 1);
                if cover[c] < pattern_len {
                    cover[c] = pattern_len;
                }
                proof {
                    assert(more[x as int] == c);
                    assert forall|d: int| 0 <= d < count implies #[trigger] cover@[d] == if has_index(
                        more,
                        d,
                    ) && before[d] < pattern_len {
                        pattern_len
                    } else {
                        before[d]
                    } by {
                        if has_index(done, d) {
                            let a = choose|a: int| 0 <= a < done.len() && #[trigger] done[a] == d;
                            assert(more[a] == d);
                        }
                        if has_index(more, d) && d != c {
                            let a = choose|a: int| 0 <= a < more.len() && #[trigger] more[a] == d;
                            assert(done[a] == d);
                        }
                        if d != c {
                            assert(cover@[d] == cover_before[d]);
                        }
                    }
                }
                x += 1;
            }
            proof {
                assert(cover_indices@.subrange(0, cover_indices@.len() as int) =~= cover_indices@);
                assert(cover@ =~= raised(before, cover_indices@, pattern_len));
            }
            i -= 1;
        }
    }

    /// Computes the TECs round by round, as SIATEC-C does, but passes over
    /// every pattern whose points and translated points are all covered
    /// already by patterns of at least its size.
    pub fn compute_split_mtp_tecs<O: TecOutput>(
        &self,
        point_set: &PointSet,
        diff_index: &HMap,
        on_output: &mut O,
    )
        requires
            self.max_ioi > 0,
            differences_fit(point_set@),
            is_hash_index(point_set@, self.max_ioi, diff_index@),
        ensures
            exists|tecs: Seq<TecView>|
                #![trigger is_siatec_c_result(point_set@, self.max_ioi, tecs)]
                is_siatec_c_result(point_set@, self.max_ioi, tecs) && is_siatec_ch_run(
                    point_set@,
                    self.max_ioi,
                    tecs,
                ) && is_extended_by(final(on_output).received(), old(on_output).received(), tecs),
    {
        proof {
            use_type_invariant(point_set);
        }
        let ghost points = point_set@;
        let ghost emitted: Seq<TecView> = Seq::empty();
        assert(old(on_output).received() + emitted =~= old(on_output).received());
        let n = point_set.len();
        if n < 2 {
            assert(is_siatec_c_result(points, self.max_ioi, emitted));
            assert(is_siatec_ch_run(points, self.max_ioi, emitted));
            return;
        }
        let mut target_indices: Vec<usize> = Siatec::all_positions(n);
        let windowed = SiatecC { max_ioi: self.max_ioi };
        let mut window_bounds = windowed.init_window_upper_bounds(point_set);
        let mut cover: Vec<usize> = vec![0; n];
        let ghost all_targets: Seq<Seq<usize>> = seq![target_indices@];
        let ghost all_bounds: Seq<Seq<i128>> = seq![window_bounds@];
        let ghost all_covers: Seq<Seq<usize>> = seq![cover@];
        let ghost outputs: Seq<Seq<TecView>> = Seq::empty();
        proof {
            assert(joined_tecs(outputs) =~= emitted);
        }
        while target_indices[0] < n
            invariant
                all_targets.last() == target_indices@,
                all_bounds.last() == window_bounds@,
                all_covers.last() == cover@,
                are_hashed_rounds(points, self.max_ioi, all_targets, all_bounds, all_covers, outputs),
                emitted == joined_tecs(outputs),
                n >= 2,
                n == points.len(),
                points == point_set@,
                self.max_ioi > 0,
                strictly_ascending(points),
                differences_fit(points),
                is_hash_index(points, self.max_ioi, diff_index@),
                target_indices@.len() == n,
                window_bounds@.len() == n,
                cover@.len() == n,
                windows_begin_after(target_indices@),
                bounds_in_range(window_bounds@),
                on_output.received() == old(on_output).received() + emitted,
                is_siatec_c_result(points, self.max_ioi, emitted),
            decreases rounds_left(points, target_indices@[0], window_bounds@[0]),
        {
            let ghost targets_before = target_indices@;
            let ghost bounds_before = window_bounds@;
            let ghost cover_before = cover@;
            let ghost emitted_before = emitted;
            // Compute forward diffs in restricted size window
            let forward_diffs = self.compute_forward_diffs_within_window(
                point_set,
                &mut target_indices,
                &mut window_bounds,
            );
            let ghost entries = choose|entries: Seq<(Point2Di64, IndPair)>|
                #![trigger is_hash_grouping_of(points, i64::MAX, entries, forward_diffs@)]
                is_hash_grouping_of(points, i64::MAX, entries, forward_diffs@) && is_window_round(
                    points,
                    self.max_ioi,
                    targets_before,
                    bounds_before,
                    target_indices@,
                    window_bounds@,
                    entries,
                );
            proof {
                let entries = choose|entries: Seq<(Point2Di64, IndPair)>|
                    #![trigger is_hash_grouping_of(points, i64::MAX, entries, forward_diffs@)]
                    is_hash_grouping_of(points, i64::MAX, entries, forward_diffs@)
                        && is_window_round(
                        points,
                        self.max_ioi,
                        targets_before,
                        bounds_before,
                        target_indices@,
                        window_bounds@,
                        entries,
                    );
                assert(window_open(n as int, 0, targets_before[0]));
                assert(window_advanced(
                    points,
                    self.max_ioi,
                    0,
                    targets_before[0],
                    bounds_before[0],
                    target_indices@[0],
                    window_bounds@[0],
                ));
                if target_indices@[0] < n {
                    let reached = target_indices@[0] as int;
                    if reached < n - 1 {
                        assert(points[reached].lex_lt(points[n - 1]));
                    }
                }
            }
            let mtps = SiatecCH::partition_to_mtps(point_set, &forward_diffs);
            proof {
                assert forall|g: int| 0 <= g < mtps@.len() implies (#[trigger] mtps@[g]).1@.len()
                    == mtps@[g].0.pattern@.len() && mtps@[g].2@.len()
                    == mtps@[g].0.pattern@.len() by {
                    assert(is_windowed_mtp(points, mtps@[g]));
                }
            }
            let split_triples = SiatecC::split_mtps_on_ioi(&mtps, self.max_ioi);
            let ghost splits = split_views(split_triples@);
            let ghost step_covers: Seq<Seq<usize>> = seq![cover@];
            let ghost step_outputs: Seq<Seq<TecView>> = Seq::empty();
            let mut k: usize = 0;
            proof {
                assert(emitted_before + joined_tecs(step_outputs) =~= emitted);
            }
            while k < split_triples.len()
                invariant
                    k <= split_triples@.len(),
                    n == points.len(),
                    points == point_set@,
                    self.max_ioi > 0,
                    strictly_ascending(points),
                    differences_fit(points),
                    is_hash_index(points, self.max_ioi, diff_index@),
                    cover@.len() == n,
                    forall|g: int|
                        0 <= g < mtps@.len() ==> is_windowed_mtp(points, #[trigger] mtps@[g]),
                    splits == split_views(split_triples@),
                    are_splits_of(mtps@, self.max_ioi, splits),
                    on_output.received() == old(on_output).received() + emitted,
                    is_siatec_c_result(points, self.max_ioi, emitted),
                    emitted == emitted_before + joined_tecs(step_outputs),
                    step_outputs.len() == k,
                    step_covers[0] == cover_before,
                    step_covers.last() == cover@,
                    are_cover_steps(points, splits, step_covers, step_outputs),
                decreases split_triples@.len() - k,
            {
                let pattern = &split_triples[k].0;
                let source_ind = &split_triples[k].1;
                let target_ind = &split_triples[k].2;
                let ghost step_cover = cover@;
                let ghost step_tecs: Seq<TecView> = Seq::empty();
                let ghost emitted_at_step = emitted;
                proof {
                    let piece = split_views(split_triples@)[k as int];
                    assert(piece == split_view(split_triples@[k as int]));
                    lemma_piece_indices_within(points, mtps@, piece);
                }
                if pattern.len() > 1 && SiatecCH::improves_cover(
                    &cover,
                    source_ind,
                    target_ind,
                    pattern.len(),
                ) {
                    proof {
                        let piece = split_views(split_triples@)[k as int];
                        lemma_piece_is_windowed(points, self.max_ioi, mtps@, piece);
                    }
                    let translators = self.find_translators_update_cover(
                        pattern,
                        diff_index,
                        point_set,
                        &mut cover,
                    );
                    let tec = Tec { pattern: pattern.copy(), translators };
                    proof {
                        let piece = split_views(split_triples@)[k as int];
                        lemma_piece_recurs(points, self.max_ioi, mtps@, piece, tec@);
                        assert((old(on_output).received() + emitted).push(tec@) =~= old(
                            on_output,
                        ).received() + emitted.push(tec@));
                        let longer = emitted.push(tec@);
                        assert forall|x: int| 0 <= x < longer.len() implies is_windowed_tec(
                            points,
                            self.max_ioi,
                            #[trigger] longer[x],
                        ) by {
                            if x < emitted.len() {
                                assert(longer[x] == emitted[x]);
                            }
                        }
                        emitted = longer;
                        step_tecs = seq![tec@];
                    }
                    on_output.output(tec);
                }
                proof {
                    assert(is_cover_step(points, splits[k as int], step_cover, cover@, step_tecs));
                    let more_covers = step_covers.push(cover@);
                    let more_outputs = step_outputs.push(step_tecs);
                    assert forall|x: int| 0 <= x < more_outputs.len() implies is_cover_step(
                        points,
                        splits[x],
                        more_covers[x],
                        more_covers[x + 1],
                        #[trigger] more_outputs[x],
                    ) by {
                        if x < step_outputs.len() {
                            assert(more_covers[x] == step_covers[x]);
                            assert(more_covers[x + 1] == step_covers[x + 1]);
                            assert(more_outputs[x] == step_outputs[x]);
                        }
                    }
                    assert(more_outputs.drop_last() =~= step_outputs);
                    assert(more_covers[0] == step_covers[0]);
                    assert(emitted =~= emitted_before + joined_tecs(more_outputs));
                    step_covers = more_covers;
                    step_outputs = more_outputs;
                }
                k += 1;
            }
            proof {
                assert(is_hashed_round_with(
                    points,
                    self.max_ioi,
                    targets_before,
                    bounds_before,
                    target_indices@,
                    window_bounds@,
                    entries,
                    forward_diffs@,
                    mtps@,
                    splits,
                    step_covers,
                    step_outputs,
                ));
                let round_tecs = joined_tecs(step_outputs);
                assert(is_hashed_round(
                    points,
                    self.max_ioi,
                    targets_before,
                    bounds_before,
                    cover_before,
                    target_indices@,
                    window_bounds@,
                    cover@,
                    round_tecs,
                ));
                let more_targets = all_targets.push(target_indices@);
                let more_bounds = all_bounds.push(window_bounds@);
                let more_covers = all_covers.push(cover@);
                let more_outputs = outputs.push(round_tecs);
                assert forall|r: int| 0 <= r < more_outputs.len() implies (
                #[trigger] more_targets[r])[0] < points.len() by {
                    if r < outputs.len() {
                        assert(more_targets[r] == all_targets[r]);
                    } else {
                        assert(more_targets[r] == targets_before);
                    }
                }
                assert forall|r: int| 0 <= r < more_outputs.len() implies is_hashed_round(
                    points,
                    self.max_ioi,
                    more_targets[r],
                    more_bounds[r],
                    more_covers[r],
                    more_targets[r + 1],
                    more_bounds[r + 1],
                    more_covers[r + 1],
                    #[trigger] more_outputs[r],
                ) by {
                    if r < outputs.len() {
                        assert(more_targets[r] == all_targets[r]);
                        assert(more_targets[r + 1] == all_targets[r + 1]);
                        assert(more_bounds[r] == all_bounds[r]);
                        assert(more_bounds[r + 1] == all_bounds[r + 1]);
                        assert(more_covers[r] == all_covers[r]);
                        assert(more_covers[r + 1] == all_covers[r + 1]);
                        assert(more_outputs[r] == outputs[r]);
                    } else {
                        assert(more_targets[r] == targets_before);
                        assert(more_bounds[r] == bounds_before);
                        assert(more_covers[r] == cover_before);
                        assert(more_targets[r + 1] == target_indices@);
                        assert(more_bounds[r + 1] == window_bounds@);
                        assert(more_covers[r + 1] == cover@);
                        assert(more_outputs[r] == round_tecs);
                    }
                }
                assert(more_outputs.drop_last() =~= outputs);
                assert(more_targets[0] == all_targets[0]);
                assert(more_bounds[0] == all_bounds[0]);
                assert(more_covers[0] == all_covers[0]);
                assert(emitted =~= joined_tecs(more_outputs));
                all_targets = more_targets;
                all_bounds = more_bounds;
                all_covers = more_covers;
                outputs = more_outputs;
            }
        }
        proof {
            assert(is_siatec_ch_run(points, self.max_ioi, emitted));
        }
    }
}

/// Grouping all windowed differences by hash gives the hash index.
proof fn lemma_grouping_is_index(
    points: Seq<Point2Di64>,
    max_ioi: i64,
    entries: Seq<(Point2Di64, IndPair)>,
    index: Map<Point2Di64, Vec<IndPair>>,
)
    requires
        differences_fit(points),
        is_generated_diff_list(points, max_ioi, entries),
        is_hash_grouping_of(points, max_ioi, entries, index),
    ensures
        is_hash_index(points, max_ioi, index),
{
    assert forall|i: int, j: int|
        0 <= i < j < points.len() && ioi_between(points[i], points[j])
            <= max_ioi implies #[trigger] has_hashed_pair(index, points, i, j) by {
        assert(has_pair_entry(entries, i, j));
        let x = choose|x: int|
            0 <= x < entries.len() && (#[trigger] entries[x]).1.0 == i && entries[x].1.1 == j;
        assert(is_windowed_entry(points, max_ioi, entries[x]));
        assert(points[j].can_sub(points[i]));
        assert(entries[x].0 == points[j].minus(points[i]));
        assert(index.contains_key(entries[x].0));
    }
}

/// The entries of one round are in the order in which they are generated.
proof fn lemma_round_is_generated(points: Seq<Point2Di64>, entries: Seq<(Point2Di64, IndPair)>)
    requires
        differences_fit(points),
        forall|k: int| 0 <= k < entries.len() ==> is_forward_entry(points, #[trigger] entries[k]),
        forall|a: int, b: int|
            0 <= a < b < entries.len() ==> pair_generated_before(
                (#[trigger] entries[a]).1,
                (#[trigger] entries[b]).1,
            ),
    ensures
        is_generated_list(points, i64::MAX, entries),
{
    assert forall|k: int| 0 <= k < entries.len() implies is_windowed_entry(
        points,
        i64::MAX,
        #[trigger] entries[k],
    ) by {
        assert(is_forward_entry(points, entries[k]));
        assert(points[entries[k].1.1 as int].can_sub(points[entries[k].1.0 as int]));
    }
}

/// The difference between two neighbours of a windowed pattern is a key of
/// the hash index, and the index pairs under it are the step group of the
/// two neighbours.
proof fn lemma_step_is_hashed(
    points: Seq<Point2Di64>,
    max_ioi: i64,
    index: Map<Point2Di64, Vec<IndPair>>,
    pattern: Seq<Point2Di64>,
    k: int,
)
    requires
        strictly_ascending(points),
        differences_fit(points),
        is_hash_index(points, max_ioi, index),
        is_windowed_pattern(points, max_ioi, pattern),
        can_vectorize(pattern),
        0 <= k < pattern.len() - 1,
    ensures
        index.contains_key(vectorized(pattern)[k]),
        is_step_group(points, pattern[k], pattern[k + 1], index[vectorized(pattern)[k]]@),
{
    let key = vectorized(pattern)[k];
    let from = pattern[k];
    let to = pattern[k + 1];
    assert(points.contains(from));
    assert(points.contains(to));
    let i = choose|i: int| 0 <= i < points.len() && points[i] == from;
    let j = choose|j: int| 0 <= j < points.len() && points[j] == to;
    assert(from.lex_lt(to));
    if j <= i {
        if j < i {
            assert(points[j].lex_lt(points[i]));
        }
    }
    assert(ioi_between(from, to) <= max_ioi);
    assert(has_hashed_pair(index, points, i, j));
    assert(to.can_sub(from));
    assert(key == points[j].minus(points[i]));
    let pairs = index[key]@;
    assert(is_index_group(points, max_ioi, (key, index[key])));
    assert forall|x: int| 0 <= x < pairs.len() implies (#[trigger] pairs[x]).0 < points.len()
        && pairs[x].1 < points.len() && same_offset(
        points[pairs[x].0 as int],
        points[pairs[x].1 as int],
        from,
        to,
    ) by {
        assert(is_windowed_entry(points, max_ioi, (key, pairs[x])));
    }
    assert forall|a: int, b: int|
        0 <= a < points.len() && 0 <= b < points.len() && same_offset(
            points[a],
            points[b],
            from,
            to,
        ) implies #[trigger] has_pair(pairs, a, b) by {
        assert(points[a].lex_lt(points[b]));
        if b <= a {
            if b < a {
                assert(points[b].lex_lt(points[a]));
            }
        }
        assert(ioi_between(points[a], points[b]) <= max_ioi);
        assert(has_hashed_pair(index, points, a, b));
        assert(points[b].can_sub(points[a]));
        assert(points[b].minus(points[a]) == key);
    }
}

/// The source and target indices of a piece of an MTP lie within the point
/// set.
proof fn lemma_piece_indices_within(
    points: Seq<Point2Di64>,
    mtps: Seq<WindowedMtp>,
    piece: crate::discovery::siatec_c::SplitView,
)
    requires
        forall|g: int| 0 <= g < mtps.len() ==> is_windowed_mtp(points, #[trigger] mtps[g]),
        crate::discovery::windows::is_piece_of_some(mtps, piece),
    ensures
        indices_within(piece.1, points.len() as int),
        indices_within(piece.2, points.len() as int),
{
    let g = choose|g: int|
        0 <= g < mtps.len() && crate::discovery::windows::is_piece_of(#[trigger] mtps[g], piece);
    let mtp = mtps[g];
    assert(is_windowed_mtp(points, mtp));
    let offset = choose|offset: int|
        0 <= offset && offset + piece.0.len() <= mtp.0.pattern@.len() && piece.0
            == #[trigger] mtp.0.pattern@.subrange(offset, offset + piece.0.len()) && piece.1
            == mtp.1@.subrange(offset, offset + piece.0.len()) && piece.2 == mtp.2@.subrange(
            offset,
            offset + piece.0.len(),
        );
    assert forall|k: int| 0 <= k < piece.1.len() implies #[trigger] piece.1[k] < points.len() by {
        assert(piece.1[k] == mtp.1@[offset + k]);
        assert(mtp.1@[offset + k] < mtp.2@[offset + k]);
    }
    assert forall|k: int| 0 <= k < piece.2.len() implies #[trigger] piece.2[k] < points.len() by {
        assert(piece.2[k] == mtp.2@[offset + k]);
        assert(mtp.1@[offset + k] < mtp.2@[offset + k]);
    }
}

/// Each point of the pattern comes before the next one.
pub open spec fn neighbours_ascend(pattern: Seq<Point2Di64>) -> bool {
    forall|k: int| 0 <= k < pattern.len() - 1 ==> (#[trigger] pattern[k]).lex_lt(pattern[k + 1])
}

/// Where each point comes before the next one, each comes before every
/// later one.
proof fn lemma_neighbours_decide(pattern: Seq<Point2Di64>, a: int, b: int)
    requires
        neighbours_ascend(pattern),
        0 <= a < b < pattern.len(),
    ensures
        pattern[a].lex_lt(pattern[b]),
    decreases b - a,
{
    assert(pattern[b - 1].lex_lt(pattern[b]));
    if a < b - 1 {
        lemma_neighbours_decide(pattern, a, b - 1);
    }
}

/// The index holds the difference between each point of the pattern and
/// the next one.
pub open spec fn holds_steps_of(index: Map<Point2Di64, Vec<IndPair>>, pattern: Seq<Point2Di64>) -> bool {
    forall|k: int|
        0 <= k < pattern.len() - 1 ==> index.contains_key(#[trigger] vectorized(pattern)[k])
}

/// The patterns for which the translators are found are all the patterns
/// of points of the set for which no difference is missing from the index:
/// a pattern of two or more points of the set, with every difference
/// between neighbours held by the index, is in ascending order and has no
/// gap larger than `max_ioi`.
pub proof fn lemma_held_steps_make_windowed(
    points: Seq<Point2Di64>,
    max_ioi: i64,
    index: Map<Point2Di64, Vec<IndPair>>,
    pattern: Seq<Point2Di64>,
)
    requires
        strictly_ascending(points),
        differences_fit(points),
        is_hash_index(points, max_ioi, index),
        pattern.len() >= 2,
        forall|i: int| 0 <= i < pattern.len() ==> points.contains(#[trigger] pattern[i]),
        holds_steps_of(index, pattern),
    ensures
        is_windowed_pattern(points, max_ioi, pattern),
{
    assert forall|k: int| 0 <= k < pattern.len() - 1 implies (#[trigger] pattern[k]).lex_lt(
        pattern[k + 1],
    ) && ioi_between(pattern[k], pattern[k + 1]) <= max_ioi by {
        let key = vectorized(pattern)[k];
        assert(index.contains_key(key));
        assert(points.contains(pattern[k]));
        assert(points.contains(pattern[k + 1]));
        let a = choose|a: int| 0 <= a < points.len() && points[a] == pattern[k];
        let b = choose|b: int| 0 <= b < points.len() && points[b] == pattern[k + 1];
        assert(points[b].can_sub(points[a]));
        assert(is_index_group(points, max_ioi, (key, index[key])));
        let pair = index[key]@[0];
        assert(is_windowed_entry(points, max_ioi, (key, pair)));
        assert(points[pair.0 as int].lex_lt(points[pair.1 as int]));
    }
    assert(neighbours_ascend(pattern));
    assert forall|a: int, b: int| 0 <= a < b < pattern.len() implies (#[trigger] pattern[a]).lex_lt(
        #[trigger] pattern[b],
    ) by {
        lemma_neighbours_decide(pattern, a, b);
    }
    assert forall|i: int| 0 <= i < pattern.len() - 1 implies ioi_between(
        pattern[i],
        #[trigger] pattern[i + 1],
    ) <= max_ioi by {
        assert(pattern[i].lex_lt(pattern[i + 1]) && ioi_between(pattern[i], pattern[i + 1])
            <= max_ioi);
    }
}

/// No entry of the cover ever falls: walking the steps of a pattern
/// backward leaves each entry as it was or raises it to the size of the
/// pattern.
pub proof fn lemma_cover_never_falls(
    cover: Seq<usize>,
    steps: Seq<Seq<IndPair>>,
    k: int,
    indices: Seq<usize>,
    size: usize,
)
    requires
        k <= steps.len(),
    ensures
        cover_after(cover, steps, k, indices, size).len() == cover.len(),
        forall|c: int|
            0 <= c < cover.len() ==> #[trigger] cover_after(cover, steps, k, indices, size)[c]
                >= cover[c],
        forall|c: int|
            0 <= c < cover.len() ==> #[trigger] cover_after(cover, steps, k, indices, size)[c]
                == cover[c] || cover_after(cover, steps, k, indices, size)[c] == size,
    decreases k,
{
    if k > 0 {
        let reached = matched(indices, steps[k - 1], false);
        let higher = raised(cover, reached, size);
        lemma_cover_never_falls(higher, steps, k - 1, reached, size);
        assert forall|c: int| 0 <= c < cover.len() implies #[trigger] cover_after(
            cover,
            steps,
            k,
            indices,
            size,
        )[c] >= cover[c] && (cover_after(cover, steps, k, indices, size)[c] == cover[c]
            || cover_after(cover, steps, k, indices, size)[c] == size) by {
            assert(cover_after(higher, steps, k - 1, reached, size)[c] >= higher[c]);
        }
    }
}

} // verus!
