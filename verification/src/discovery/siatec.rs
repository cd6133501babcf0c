//! The SIATEC algorithm: the translational equivalence classes of all
//! maximal translatable patterns of a point set.

use crate::discovery::algorithm::is_extended_by;
use crate::discovery::algorithm::TecAlgorithm;
use crate::discovery::algorithm::TecCollector;
use crate::discovery::algorithm::TecOutput;
use crate::discovery::shapes::lemma_shape_order_is_strict;
use crate::discovery::sia::emitted_up_to;
use crate::discovery::sia::is_forward_diff;
use crate::discovery::sia::is_forward_diff_list;
use crate::discovery::sia::is_sia_result;
use crate::discovery::sia::lemma_all_emitted;
use crate::discovery::sia::lemma_nothing_emitted;
use crate::discovery::sia::lemma_run_emitted;
use crate::discovery::sia::Sia;
use crate::discovery::utilities::position_lt;
use crate::discovery::utilities::positions_sorted;
use crate::discovery::utilities::shape_views;
use crate::discovery::utilities::sort_positions;
use crate::point_set::mtp::translated_in;
use crate::point_set::mtp::MtpView;
use crate::point_set::pattern::can_vectorize;
use crate::point_set::pattern::lemma_shapes_are_ordered;
use crate::point_set::pattern::shape_lt;
use crate::point_set::pattern::vectorized;
use crate::point_set::pattern::Pattern;
use crate::point_set::point::is_diff;
use crate::point_set::point::is_sum;
use crate::point_set::point::Point;
use crate::point_set::point::Point2Di64;
use crate::point_set::set::differences_fit;
use crate::point_set::set::strictly_ascending;
use crate::point_set::set::PointSet;
use crate::point_set::tec::is_full_tec_in;
use crate::point_set::tec::is_tec_in;
use crate::point_set::tec::is_translator_of;
use crate::point_set::tec::tec_views;
use crate::point_set::tec::Tec;
use crate::point_set::tec::TecView;
use vstd::prelude::*;

verus! {

/// The table holds, in row `i` and column `j`, the difference from point
/// `i` to point `j`.
pub open spec fn is_diff_table(points: Seq<Point2Di64>, table: Seq<Vec<Point2Di64>>) -> bool {
    &&& table.len() == points.len()
    &&& forall|i: int| 0 <= i < table.len() ==> (#[trigger] table[i])@.len() == points.len()
    &&& forall|i: int, j: int|
        0 <= i < points.len() && 0 <= j < points.len() ==> is_diff(
            points[j],
            points[i],
            #[trigger] table[i]@[j],
        )
}

/// The indices select the points of the pattern from the point set, in
/// ascending order.
pub open spec fn selects(
    points: Seq<Point2Di64>,
    indices: Seq<usize>,
    pattern: Seq<Point2Di64>,
) -> bool {
    &&& indices.len() == pattern.len()
    &&& forall|k: int| 0 <= k < indices.len() ==> #[trigger] indices[k] < points.len()
    &&& forall|k: int| 0 <= k < indices.len() ==> #[trigger] pattern[k] == points[indices[k] as int]
    &&& forall|a: int, b: int|
        0 <= a < b < indices.len() ==> #[trigger] indices[a] < #[trigger] indices[b]
}

/// An MTP together with the indices of its points in the point set.
pub struct MtpCandidate {
    /// The vector that moves every point of the pattern within the set.
    pub translator: Point2Di64,
    /// The points that the translator moves within the set.
    pub pattern: Pattern,
    /// The indices of the pattern's points in the point set.
    pub indices: Vec<usize>,
}

/// The MTPs that the candidates stand for.
pub open spec fn candidate_mtps(candidates: Seq<MtpCandidate>) -> Seq<MtpView> {
    Seq::new(
        candidates.len(),
        |k: int| MtpView { translator: candidates[k].translator, pattern: candidates[k].pattern@ },
    )
}

/// The candidates are what SIA produces for the points, each with the
/// indices of its pattern's points, and `shapes` holds the vectorized
/// pattern of each.
pub open spec fn are_candidates_of(
    points: Seq<Point2Di64>,
    candidates: Seq<MtpCandidate>,
    shapes: Seq<Pattern>,
) -> bool {
    &&& is_sia_result(points, candidate_mtps(candidates))
    &&& shapes.len() == candidates.len()
    &&& forall|k: int|
        0 <= k < candidates.len() ==> selects(
            points,
            (#[trigger] candidates[k]).indices@,
            candidates[k].pattern@,
        )
    &&& forall|k: int|
        0 <= k < candidates.len() ==> (#[trigger] shapes[k])@ == vectorized(candidates[k].pattern@)
}

/// The positions pick one candidate for each shape: the first with that
/// shape, the shapes in ascending order.
pub open spec fn picks_first_of_each_shape(shapes: Seq<Seq<Point2Di64>>, picked: Seq<usize>) -> bool {
    &&& forall|k: int| 0 <= k < picked.len() ==> #[trigger] picked[k] < shapes.len()
    &&& shapes_ascend(shapes, picked)
    &&& forall|c: int| 0 <= c < shapes.len() ==> #[trigger] is_picked_for(shapes, picked, c)
}

/// The shapes at the picked positions come in ascending order, none twice.
pub open spec fn shapes_ascend(shapes: Seq<Seq<Point2Di64>>, picked: Seq<usize>) -> bool {
    forall|a: int, b: int|
        0 <= a < b < picked.len() ==> shape_lt(
            shapes[#[trigger] picked[a] as int],
            shapes[#[trigger] picked[b] as int],
        )
}

/// One of the first `k` positions of `order` has the given shape.
pub open spec fn has_shape_before(
    shapes: Seq<Seq<Point2Di64>>,
    order: Seq<usize>,
    k: int,
    shape: Seq<Point2Di64>,
) -> bool {
    exists|x: int| 0 <= x < k && x < order.len() && shapes[#[trigger] order[x] as int] == shape
}

/// One of the picked positions has the shape at position `c` and does not
/// come after `c`.
pub open spec fn is_picked_for(shapes: Seq<Seq<Point2Di64>>, picked: Seq<usize>, c: int) -> bool {
    exists|k: int|
        0 <= k < picked.len() && #[trigger] picked[k] <= c && shapes[picked[k] as int] == shapes[c]
}

/// One TEC for each MTP: the pattern of the MTP with all its translators.
pub open spec fn is_one_tec_per_mtp(
    points: Seq<Point2Di64>,
    mtps: Seq<MtpView>,
    tecs: Seq<TecView>,
) -> bool {
    &&& tecs.len() == mtps.len()
    &&& forall|k: int|
        0 <= k < tecs.len() ==> (#[trigger] tecs[k]).pattern == mtps[k].pattern && is_full_tec_in(
            points,
            tecs[k],
        )
}

/// The patterns of the MTPs, vectorized.
pub open spec fn mtp_shapes(mtps: Seq<MtpView>) -> Seq<Seq<Point2Di64>> {
    Seq::new(mtps.len(), |k: int| vectorized(mtps[k].pattern))
}

/// One TEC for each shape among the MTPs: the pattern of the first MTP
/// with that shape, with all its translators; the shapes in ascending
/// order.
pub open spec fn is_one_tec_per_shape(
    points: Seq<Point2Di64>,
    mtps: Seq<MtpView>,
    tecs: Seq<TecView>,
) -> bool {
    exists|picked: Seq<usize>|
        #![trigger picks_first_of_each_shape(mtp_shapes(mtps), picked)]
        picks_first_of_each_shape(mtp_shapes(mtps), picked) && tecs.len() == picked.len()
            && forall|k: int|
            0 <= k < tecs.len() ==> (#[trigger] tecs[k]).pattern == mtps[picked[k] as int].pattern
                && is_full_tec_in(points, tecs[k])
}

/// What SIATEC produces: for the MTPs that SIA finds, one TEC each, or,
/// with removal of duplicates, one TEC for each shape among them.
pub open spec fn is_siatec_result(
    points: Seq<Point2Di64>,
    remove_duplicates: bool,
    tecs: Seq<TecView>,
) -> bool {
    exists|mtps: Seq<MtpView>|
        #![trigger is_sia_result(points, mtps)]
        is_sia_result(points, mtps) && if remove_duplicates {
            is_one_tec_per_shape(points, mtps, tecs)
        } else {
            is_one_tec_per_mtp(points, mtps, tecs)
        }
}

/// Implements the SIATEC algorithm for computing all translational
/// equivalence classes (TECs) of maximal translatable patterns (MTPs) in a
/// point set. When `remove_duplicates` is set, one TEC is produced for each
/// shape of pattern, otherwise one for each MTP.
pub struct Siatec {
    /// Enables or disables removal of duplicate TECs. When true, duplicate
    /// TECs are not produced.
    pub remove_duplicates: bool,
}

impl TecAlgorithm for Siatec {
    open spec fn accepts(&self, points: Seq<Point2Di64>) -> bool {
        differences_fit(points)
    }

    open spec fn produces(&self, points: Seq<Point2Di64>, tecs: Seq<TecView>) -> bool {
        is_siatec_result(points, self.remove_duplicates, tecs)
    }

    open spec fn gives_patterns(&self) -> bool {
        true
    }

    /// Returns all TECs of MTPs for the given point set.
    fn compute_tecs(&self, point_set: &PointSet) -> (tecs: Vec<Tec>) {
        let mut collector = TecCollector { tecs: Vec::new() };
        self.compute_tecs_to_output(point_set, &mut collector);
        proof {
            let found = choose|found: Seq<TecView>|
                #![trigger self.produces(point_set@, found)]
                self.produces(point_set@, found) && is_extended_by(
                    collector.received(),
                    Seq::<TecView>::empty(),
                    found,
                ) && forall|k: int|
                    0 <= k < found.len() ==> is_tec_in(point_set@, #[trigger] found[k]);
            assert(tec_views(Seq::<Tec>::empty()) =~= Seq::<TecView>::empty());
            assert(Seq::<TecView>::empty() + found =~= found);
            assert forall|k: int| 0 <= k < collector.tecs@.len() implies is_tec_in(
                point_set@,
                #[trigger] collector.tecs@[k]@,
            ) by {
                assert(found[k] == collector.tecs@[k]@);
            }
        }
        collector.tecs
    }

    fn compute_tecs_to_output<O: TecOutput>(&self, point_set: &PointSet, on_output: &mut O) {
        let ghost points = point_set@;
        let (diff_table, forward_diffs) = Siatec::compute_differences(point_set);
        let (candidates, shapes) = Siatec::partition(point_set, &forward_diffs);
        let ghost mtps = candidate_mtps(candidates@);
        let picked = if self.remove_duplicates {
            Siatec::remove_translational_duplicates(&shapes)
        } else {
            Siatec::all_positions(shapes.len())
        };
        proof {
            assert(shape_views(shapes@) =~= mtp_shapes(mtps));
        }
        let ghost emitted: Seq<TecView> = Seq::empty();
        assert(old(on_output).received() + emitted =~= old(on_output).received());
        let mut k: usize = 0;
        while k < picked.len()
            invariant
                k <= picked@.len(),
                points == point_set@,
                is_diff_table(points, diff_table@),
                are_candidates_of(points, candidates@, shapes@),
                mtps == candidate_mtps(candidates@),
                forall|x: int| 0 <= x < picked@.len() ==> #[trigger] picked@[x] < candidates@.len(),
                on_output.received() == old(on_output).received() + emitted,
                emitted.len() == k,
                forall|x: int|
                    0 <= x < k ==> (#[trigger] emitted[x]).pattern == mtps[picked@[x] as int].pattern
                        && is_full_tec_in(points, emitted[x]),
            decreases picked@.len() - k,
        {
            let candidate = &candidates[picked[k]];
            proof {
                assert(selects(points, candidate.indices@, candidate.pattern@));
                assert(is_sia_result(points, mtps));
                assert(mtps[picked@[k as int] as int].pattern.len() > 0);
            }
            let translators = Siatec::find_translators(
                point_set,
                &candidate.pattern,
                &candidate.indices,
                &diff_table,
            );
            let tec = Tec { pattern: candidate.pattern.copy(), translators };
            proof {
                assert((old(on_output).received() + emitted).push(tec@) =~= old(
                    on_output,
                ).received() + emitted.push(tec@));
                emitted = emitted.push(tec@);
            }
            on_output.output(tec);
            k += 1;
        }
        proof {
            if self.remove_duplicates {
                assert(picks_first_of_each_shape(mtp_shapes(mtps), picked@));
                assert(is_one_tec_per_shape(points, mtps, emitted));
            } else {
                assert(is_one_tec_per_mtp(points, mtps, emitted));
            }
            assert(is_sia_result(points, mtps));
            assert(is_siatec_result(points, self.remove_duplicates, emitted));
            assert(self.produces(points, emitted));
        }
    }
}

impl Siatec {
    /// Computes the difference table and the forward differences with the
    /// indices required for MTP and translator computation. The forward
    /// differences are sorted in ascending lexicographical order.
    pub fn compute_differences(point_set: &PointSet) -> (differences: (
        Vec<Vec<Point2Di64>>,
        Vec<(Point2Di64, usize)>,
    ))
        requires
            differences_fit(point_set@),
        ensures
            is_diff_table(point_set@, differences.0@),
            is_forward_diff_list(point_set@, differences.1@),
    {
        let diff_table = Siatec::compute_diff_table(point_set);
        let forward_diffs = Sia::compute_differences(point_set);
        (diff_table, forward_diffs)
    }

    /// Partitions the sorted list of difference-index pairs into MTPs.
    /// Returns, for each MTP, the MTP with the indices of its points, and
    /// beside it the vectorized representation of its pattern.
    pub fn partition(point_set: &PointSet, forward_diffs: &Vec<(Point2Di64, usize)>) -> (found: (
        Vec<MtpCandidate>,
        Vec<Pattern>,
    ))
        requires
            differences_fit(point_set@),
            is_forward_diff_list(point_set@, forward_diffs@),
        ensures
            are_candidates_of(point_set@, found.0@, found.1@),
    {
        proof {
            use_type_invariant(point_set);
        }
        let ghost points = point_set@;
        let ghost entries = forward_diffs@;
        let mut candidates: Vec<MtpCandidate> = Vec::new();
        let mut shapes: Vec<Pattern> = Vec::new();
        let m = forward_diffs.len();
        let mut i: usize = 0;
        proof {
            lemma_nothing_emitted(points, entries);
            assert(candidate_mtps(candidates@) =~= Seq::<MtpView>::empty());
        }
        while i < m
            invariant
                i <= m,
                m == entries.len(),
                entries == forward_diffs@,
                points == point_set@,
                strictly_ascending(points),
                differences_fit(points),
                is_forward_diff_list(points, entries),
                0 < i < m ==> entries[i - 1].0 != entries[i as int].0,
                emitted_up_to(points, entries, i as int, candidate_mtps(candidates@)),
                shapes@.len() == candidates@.len(),
                forall|k: int|
                    0 <= k < candidates@.len() ==> selects(
                        points,
                        (#[trigger] candidates@[k]).indices@,
                        candidates@[k].pattern@,
                    ),
                forall|k: int|
                    0 <= k < candidates@.len() ==> (#[trigger] shapes@[k])@ == vectorized(
                        candidates@[k].pattern@,
                    ),
            decreases m - i,
        {
            let mut indices: Vec<usize> = Vec::new();
            let translator = forward_diffs[i].0;
            let mut j: usize = i;
            while j < m && translator == forward_diffs[j].0
                invariant
                    i <= j <= m,
                    i < m,
                    m == entries.len(),
                    entries == forward_diffs@,
                    translator == entries[i as int].0,
                    indices@.len() == j - i,
                    forall|k: int| 0 <= k < j - i ==> indices@[k] == entries[i + k].1,
                    forall|x: int| i <= x < j ==> (#[trigger] entries[x]).0 == translator,
                decreases m - j,
            {
                indices.push(forward_diffs[j].1);
                j += 1;
            }
            proof {
                assert forall|k: int| 0 <= k < indices@.len() implies indices@[k] < points.len() by {
                    assert(is_forward_diff(points, entries[i + k]));
                }
            }
            let pattern = point_set.get_pattern(&indices);
            proof {
                lemma_run_emitted(
                    points,
                    entries,
                    i as int,
                    j as int,
                    candidate_mtps(candidates@),
                    pattern@,
                );
                lemma_run_selects(points, entries, i as int, j as int, indices@, pattern@);
                lemma_selection_can_vectorize(points, indices@, pattern@);
            }
            let vectorized_pattern = pattern.vectorize();
            let ghost before = candidates@;
            let ghost shapes_before = shapes@;
            candidates.push(MtpCandidate { translator, pattern, indices });
            shapes.push(vectorized_pattern);
            proof {
                assert(candidate_mtps(candidates@) =~= candidate_mtps(before).push(
                    MtpView { translator, pattern: candidates@[before.len() as int].pattern@ },
                ));
                assert forall|k: int| 0 <= k < candidates@.len() implies selects(
                    points,
                    (#[trigger] candidates@[k]).indices@,
                    candidates@[k].pattern@,
                ) by {
                    if k < before.len() {
                        assert(candidates@[k] == before[k]);
                    }
                }
                assert forall|k: int| 0 <= k < candidates@.len() implies (#[trigger] shapes@[k])@
                    == vectorized(candidates@[k].pattern@) by {
                    if k < before.len() {
                        assert(candidates@[k] == before[k]);
                        assert(shapes@[k] == shapes_before[k]);
                    }
                }
            }
            i = j;
        }
        proof {
            lemma_all_emitted(points, entries, candidate_mtps(candidates@));
        }
        (candidates, shapes)
    }

    /// Returns the positions `0` to `count - 1` in ascending order.
    pub fn all_positions(count: usize) -> (positions: Vec<usize>)
        ensures
            positions@.len() == count,
            forall|k: int| 0 <= k < count ==> positions@[k] == k,
    {
        let mut positions: Vec<usize> = Vec::with_capacity(count);
        let mut k: usize = 0;
        while k < count
            invariant
                k <= count,
                positions@.len() == k,
                forall|x: int| 0 <= x < k ==> positions@[x] == x,
            decreases count - k,
        {
            positions.push(k);
            k += 1;
        }
        positions
    }

    /// Removes duplication of translationally equivalent patterns: returns
    /// the positions of the patterns that stay, one for each shape, which
    /// is the first with that shape, in ascending order of the shapes.
    pub fn remove_translational_duplicates(shapes: &Vec<Pattern>) -> (picked: Vec<usize>)
        ensures
            picks_first_of_each_shape(shape_views(shapes@), picked@),
    {
        let ghost views = shape_views(shapes@);
        let count = shapes.len();
        let mut order = Siatec::all_positions(count);
        let ghost unsorted = order@;
        // Sort by the vectorized representations so that translationally
        // equivalent patterns are adjacent.
        sort_positions(&mut order, shapes);
        proof {
            lemma_sorted_positions(unsorted, order@, count as int);
            lemma_nothing_picked(views, order@);
        }
        let mut picked: Vec<usize> = Vec::new();
        let mut k: usize = 0;
        while k < count
            invariant
                k <= count,
                count == shapes@.len(),
                views == shape_views(shapes@),
                order@.len() == count,
                order@.no_duplicates(),
                forall|x: int| 0 <= x < count ==> #[trigger] order@[x] < count,
                positions_sorted(views, order@),
                picked_up_to(views, order@, k as int, picked@),
            decreases count - k,
        {
            let position = order[k];
            let ghost before = picked@;
            let fresh = k == 0 || !shapes[position].equals(&shapes[order[k - 1]]);
            if fresh {
                picked.push(position);
            }
            proof {
                assert(views[position as int] == shapes@[position as int]@);
                if k > 0 {
                    assert(views[order@[k - 1] as int] == shapes@[order@[k - 1] as int]@);
                }
                lemma_position_picked(views, order@, k as int, before, fresh);
            }
            k += 1;
        }
        proof {
            lemma_all_picked(views, unsorted, order@, picked@);
        }
        picked
    }

    /// Initializes a table of `size` rows for differences, each of them
    /// empty.
    pub fn create_diff_table(size: usize) -> (diff_table: Vec<Vec<Point2Di64>>)
        ensures
            diff_table@.len() == size,
            forall|i: int| 0 <= i < size ==> (#[trigger] diff_table@[i])@.len() == 0,
    {
        let mut diff_table: Vec<Vec<Point2Di64>> = Vec::with_capacity(size);
        let mut i: usize = 0;
        while i < size
            invariant
                i <= size,
                diff_table@.len() == i,
                forall|k: int| 0 <= k < i ==> (#[trigger] diff_table@[k])@.len() == 0,
            decreases size - i,
        {
            diff_table.push(Vec::with_capacity(size));
            i += 1;
        }
        diff_table
    }

    /// Computes the table of the differences between all pairs of points.
    pub fn compute_diff_table(point_set: &PointSet) -> (diff_table: Vec<Vec<Point2Di64>>)
        requires
            differences_fit(point_set@),
        ensures
            is_diff_table(point_set@, diff_table@),
    {
        let ghost points = point_set@;
        let n = point_set.len();
        let mut diff_table = Siatec::create_diff_table(n);
        let mut i: usize = 0;
        while i < n
            invariant
                i <= n,
                n == points.len(),
                points == point_set@,
                differences_fit(points),
                diff_table@.len() == n,
                forall|a: int| i <= a < n ==> (#[trigger] diff_table@[a])@.len() == 0,
                forall|a: int| 0 <= a < i ==> (#[trigger] diff_table@[a])@.len() == n,
                forall|a: int, b: int|
                    0 <= a < i && 0 <= b < n ==> is_diff(
                        points[b],
                        points[a],
                        #[trigger] diff_table@[a]@[b],
                    ),
            decreases n - i,
        {
            let from = point_set[i];
            let mut j: usize = 0;
            while j < n
                invariant
                    i < n,
                    j <= n,
                    n == points.len(),
                    points == point_set@,
                    from == points[i as int],
                    differences_fit(points),
                    diff_table@.len() == n,
                    diff_table@[i as int]@.len() == j,
                    forall|a: int| i < a < n ==> (#[trigger] diff_table@[a])@.len() == 0,
                    forall|a: int| 0 <= a < i ==> (#[trigger] diff_table@[a])@.len() == n,
                    forall|a: int, b: int|
                        0 <= a < i && 0 <= b < n ==> is_diff(
                            points[b],
                            points[a],
                            #[trigger] diff_table@[a]@[b],
                        ),
                    forall|b: int|
                        0 <= b < j ==> is_diff(points[b], from, #[trigger] diff_table@[i as int]@[b]),
                decreases n - j,
            {
                let to = point_set[j];
                assert(points[j as int].can_sub(points[i as int]));
                let diff = to - from;
                diff_table[i].push(diff);
                j += 1;
            }
            i += 1;
        }
        diff_table
    }

    /// Finds all translators for the pattern by using the difference
    /// table: all non-zero vectors that move every point of the pattern
    /// onto a point of the set, in ascending order.
    ///
    /// `col_ind` holds the indices of the pattern's points in the point
    /// set; they select the rows of the table that are scanned side by
    /// side.
    pub fn find_translators(
        point_set: &PointSet,
        pattern: &Pattern,
        col_ind: &Vec<usize>,
        diff_table: &Vec<Vec<Point2Di64>>,
    ) -> (translators: Vec<Point2Di64>)
        requires
            is_diff_table(point_set@, diff_table@),
            selects(point_set@, col_ind@, pattern@),
            pattern@.len() > 0,
        ensures
            is_full_tec_in(point_set@, TecView { pattern: pattern@, translators: translators@ }),
    {
        proof {
            use_type_invariant(point_set);
        }
        let ghost points = point_set@;
        let ghost shape = pattern@;
        let n = point_set.len();
        let pat_len = pattern.len();
        proof {
            lemma_selection_fits(points, col_ind@, shape, pat_len - 1);
            lemma_nothing_found(points, shape);
        }
        let mut translators: Vec<Point2Di64> = Vec::new();
        let mut first_row: usize = 0;
        while first_row <= n - pat_len
            invariant
                0 < pat_len <= n,
                first_row <= n - pat_len + 1,
                n == points.len(),
                pat_len == shape.len(),
                points == point_set@,
                shape == pattern@,
                strictly_ascending(points),
                is_diff_table(points, diff_table@),
                selects(points, col_ind@, shape),
                found_up_to(points, shape, first_row as int, translators@),
            decreases n - pat_len + 1 - first_row,
        {
            let vec = diff_table[col_ind[0]][first_row];
            assert(is_sum(shape[0], vec, points[first_row as int]));
            let mut found = true;
            let mut col: usize = 1;
            while col < pat_len && found
                invariant
                    0 < pat_len <= n,
                    first_row <= n - pat_len,
                    1 <= col <= pat_len,
                    n == points.len(),
                    pat_len == shape.len(),
                    strictly_ascending(points),
                    strictly_ascending(shape),
                    is_diff_table(points, diff_table@),
                    selects(points, col_ind@, shape),
                    is_sum(shape[0], vec, points[first_row as int]),
                    found ==> forall|c: int|
                        0 <= c < col ==> translated_in(points, #[trigger] shape[c], vec),
                    !found ==> !is_translator_of(points, shape, vec),
                decreases pat_len - col, found as int,
            {
                let column = col_ind[col];
                let mut row: usize = first_row + col;
                while row < n && diff_table[column][row].precedes(&vec)
                    invariant
                        first_row + col <= row <= n,
                        col < pat_len,
                        n == points.len(),
                        pat_len == shape.len(),
                        column < n,
                        column == col_ind@[col as int],
                        is_diff_table(points, diff_table@),
                        selects(points, col_ind@, shape),
                        forall|r: int|
                            first_row + col <= r < row ==> !is_sum(
                                shape[col as int],
                                vec,
                                #[trigger] points[r],
                            ),
                    decreases n - row,
                {
                    assert(is_diff(points[row as int], points[column as int], diff_table@[column as int]@[row as int]));
                    row += 1;
                }
                if row >= n || vec != diff_table[column][row] {
                    proof {
                        let entry = if row < n {
                            diff_table@[column as int]@[row as int]
                        } else {
                            vec
                        };
                        if row < n {
                            assert(is_diff(points[row as int], points[column as int], entry));
                        }
                        lemma_column_fails(
                            points,
                            shape,
                            vec,
                            first_row as int,
                            col as int,
                            row as int,
                            entry,
                        );
                    }
                    found = false;
                } else {
                    proof {
                        assert(is_diff(
                            points[row as int],
                            points[column as int],
                            diff_table@[column as int]@[row as int],
                        ));
                        assert(is_sum(shape[col as int], vec, points[row as int]));
                    }
                }
                col += 1;
            }
            let ghost before = translators@;
            let keep = found && !vec.is_zero();
            if keep {
                translators.push(vec);
            }
            proof {
                lemma_row_done(points, shape, first_row as int, vec, before, keep);
            }
            first_row += 1;
        }
        proof {
            lemma_all_found(points, shape, translators@);
        }
        translators
    }
}

/// The indices of a selection are at least their positions, so a selection
/// is no longer than the point set.
proof fn lemma_selection_fits(
    points: Seq<Point2Di64>,
    indices: Seq<usize>,
    pattern: Seq<Point2Di64>,
    k: int,
)
    requires
        selects(points, indices, pattern),
        strictly_ascending(points),
        0 <= k < indices.len(),
    ensures
        k <= indices[k],
        indices.len() <= points.len(),
        strictly_ascending(pattern),
    decreases k,
{
    if k > 0 {
        lemma_selection_fits(points, indices, pattern, k - 1);
        assert(indices[k - 1] < indices[k]);
    }
    lemma_selection_ends_within(points, indices, pattern, k);
    assert forall|a: int, b: int| 0 <= a < b < pattern.len() implies (#[trigger] pattern[a]).lex_lt(
        #[trigger] pattern[b],
    ) by {
        assert(indices[a] < indices[b]);
        assert(points[indices[a] as int].lex_lt(points[indices[b] as int]));
    }
}

/// The index at position `k` of a selection leaves room for the positions
/// after it.
proof fn lemma_selection_ends_within(
    points: Seq<Point2Di64>,
    indices: Seq<usize>,
    pattern: Seq<Point2Di64>,
    k: int,
)
    requires
        selects(points, indices, pattern),
        0 <= k < indices.len(),
    ensures
        indices[k] + (indices.len() - 1 - k) < points.len(),
    decreases indices.len() - k,
{
    if k < indices.len() - 1 {
        lemma_selection_ends_within(points, indices, pattern, k + 1);
        assert(indices[k] < indices[k + 1]);
    }
}

/// What has been found once the rows before `row` are dealt with: the
/// translators that lead from the first point of the pattern to one of the
/// points before `row`.
#[verifier::opaque]
pub closed spec fn found_up_to(
    points: Seq<Point2Di64>,
    pattern: Seq<Point2Di64>,
    row: int,
    translators: Seq<Point2Di64>,
) -> bool {
    &&& strictly_ascending(translators)
    &&& forall|k: int|
        0 <= k < translators.len() ==> {
            &&& (#[trigger] translators[k]) != Point2Di64::zero()
            &&& is_translator_of(points, pattern, translators[k])
            &&& leads_to_before(points, pattern[0], translators[k], row)
        }
    &&& forall|r: int, t: Point2Di64|
        0 <= r < row && r < points.len() && t != Point2Di64::zero() && is_sum(
            pattern[0],
            t,
            #[trigger] points[r],
        ) && #[trigger] is_translator_of(points, pattern, t) ==> translators.contains(t)
}

/// The vector leads from `from` to one of the points before `row`.
pub open spec fn leads_to_before(
    points: Seq<Point2Di64>,
    from: Point2Di64,
    vector: Point2Di64,
    row: int,
) -> bool {
    exists|r: int| 0 <= r < row && r < points.len() && is_sum(from, vector, #[trigger] points[r])
}

proof fn lemma_nothing_found(points: Seq<Point2Di64>, pattern: Seq<Point2Di64>)
    ensures
        found_up_to(points, pattern, 0, Seq::<Point2Di64>::empty()),
{
    reveal(found_up_to);
}

/// Where a vector moves the whole pattern into the set and its first point
/// onto the point at `first_row`, it moves the point at position `c` onto a
/// point at least `c` rows further on.
proof fn lemma_translated_rows(
    points: Seq<Point2Di64>,
    pattern: Seq<Point2Di64>,
    vector: Point2Di64,
    first_row: int,
    c: int,
) -> (row: int)
    requires
        strictly_ascending(points),
        strictly_ascending(pattern),
        is_translator_of(points, pattern, vector),
        0 <= first_row < points.len(),
        0 <= c < pattern.len(),
        is_sum(pattern[0], vector, points[first_row]),
    ensures
        first_row + c <= row < points.len(),
        is_sum(pattern[c], vector, points[row]),
    decreases c,
{
    if c == 0 {
        first_row
    } else {
        let previous = lemma_translated_rows(points, pattern, vector, first_row, c - 1);
        assert(translated_in(points, pattern[c], vector));
        let row = choose|row: int|
            0 <= row < points.len() && is_sum(pattern[c], vector, #[trigger] points[row]);
        assert(pattern[c - 1].lex_lt(pattern[c]));
        assert(points[previous].lex_lt(points[row]));
        if row <= previous {
            if row < previous {
                assert(points[row].lex_lt(points[previous]));
            }
        }
        row
    }
}

/// Where the scan of a column passes all rows that could match, or stops at
/// a row that does not, the vector is no translator of the pattern.
proof fn lemma_column_fails(
    points: Seq<Point2Di64>,
    pattern: Seq<Point2Di64>,
    vector: Point2Di64,
    first_row: int,
    c: int,
    row: int,
    entry: Point2Di64,
)
    requires
        strictly_ascending(points),
        strictly_ascending(pattern),
        0 <= first_row < points.len(),
        0 < c < pattern.len(),
        first_row + c <= row <= points.len(),
        is_sum(pattern[0], vector, points[first_row]),
        forall|r: int| first_row + c <= r < row ==> !is_sum(pattern[c], vector, #[trigger] points[r]),
        row < points.len() ==> is_sum(pattern[c], entry, points[row]) && !entry.lex_lt(vector)
            && entry != vector,
    ensures
        !is_translator_of(points, pattern, vector),
{
    if is_translator_of(points, pattern, vector) {
        let target = lemma_translated_rows(points, pattern, vector, first_row, c);
        if target > row {
            assert(points[row].lex_lt(points[target]));
        }
    }
}

/// After the row `row` has been dealt with, the rows up to it are.
proof fn lemma_row_done(
    points: Seq<Point2Di64>,
    pattern: Seq<Point2Di64>,
    row: int,
    vector: Point2Di64,
    before: Seq<Point2Di64>,
    keep: bool,
)
    requires
        strictly_ascending(points),
        0 <= row < points.len(),
        pattern.len() > 0,
        found_up_to(points, pattern, row, before),
        is_sum(pattern[0], vector, points[row]),
        keep <==> (vector != Point2Di64::zero() && is_translator_of(points, pattern, vector)),
    ensures
        found_up_to(
            points,
            pattern,
            row + 1,
            if keep {
                before.push(vector)
            } else {
                before
            },
        ),
{
    reveal(found_up_to);
    let after = if keep {
        before.push(vector)
    } else {
        before
    };
    assert forall|k: int| 0 <= k < after.len() implies {
        &&& (#[trigger] after[k]) != Point2Di64::zero()
        &&& is_translator_of(points, pattern, after[k])
        &&& leads_to_before(points, pattern[0], after[k], row + 1)
    } by {
        if k < before.len() {
            assert(leads_to_before(points, pattern[0], before[k], row));
            let r = choose|r: int|
                0 <= r < row && r < points.len() && is_sum(pattern[0], before[k], #[trigger] points[r]);
            assert(0 <= r < row + 1 && is_sum(pattern[0], after[k], points[r]));
        } else {
            assert(0 <= row < row + 1 && is_sum(pattern[0], after[k], points[row]));
        }
    }
    assert forall|a: int, b: int| 0 <= a < b < after.len() implies (#[trigger] after[a]).lex_lt(
        #[trigger] after[b],
    ) by {
        if b == before.len() {
            assert(leads_to_before(points, pattern[0], before[a], row));
            let r = choose|r: int|
                0 <= r < row && r < points.len() && is_sum(pattern[0], before[a], #[trigger] points[r]);
            assert(points[r].lex_lt(points[row]));
        } else {
            assert(before[a].lex_lt(before[b]));
        }
    }
    assert forall|r: int, t: Point2Di64|
        0 <= r < row + 1 && r < points.len() && t != Point2Di64::zero() && is_sum(
            pattern[0],
            t,
            #[trigger] points[r],
        ) && #[trigger] is_translator_of(points, pattern, t) implies after.contains(t) by {
        if r < row {
            assert(before.contains(t));
            let k = choose|k: int| 0 <= k < before.len() && before[k] == t;
            assert(after[k] == t);
        } else {
            assert(t == vector);
            assert(after[before.len() as int] == t);
        }
    }
}

/// Once all rows that leave room for the whole pattern are dealt with, the
/// translators found are all there are.
proof fn lemma_all_found(
    points: Seq<Point2Di64>,
    pattern: Seq<Point2Di64>,
    translators: Seq<Point2Di64>,
)
    requires
        strictly_ascending(points),
        strictly_ascending(pattern),
        0 < pattern.len() <= points.len(),
        forall|i: int| 0 <= i < pattern.len() ==> points.contains(#[trigger] pattern[i]),
        found_up_to(points, pattern, points.len() - pattern.len() + 1, translators),
    ensures
        is_full_tec_in(points, TecView { pattern, translators }),
{
    reveal(found_up_to);
    assert forall|t: Point2Di64|
        t != Point2Di64::zero() && #[trigger] is_translator_of(
            points,
            pattern,
            t,
        ) implies translators.contains(t) by {
        assert(translated_in(points, pattern[0], t));
        let first = choose|r: int|
            0 <= r < points.len() && is_sum(pattern[0], t, #[trigger] points[r]);
        let last = lemma_translated_rows(points, pattern, t, first, pattern.len() - 1);
        assert(first < points.len() - pattern.len() + 1);
    }
}

/// The indices of a run of entries select its pattern.
proof fn lemma_run_selects(
    points: Seq<Point2Di64>,
    entries: Seq<(Point2Di64, usize)>,
    s: int,
    e: int,
    indices: Seq<usize>,
    pattern: Seq<Point2Di64>,
)
    requires
        is_forward_diff_list(points, entries),
        0 <= s < e <= entries.len(),
        forall|x: int| s <= x < e ==> (#[trigger] entries[x]).0 == entries[s].0,
        indices.len() == e - s,
        forall|k: int| 0 <= k < e - s ==> indices[k] == entries[s + k].1,
        pattern.len() == e - s,
        forall|k: int| 0 <= k < e - s ==> pattern[k] == points[indices[k] as int],
    ensures
        selects(points, indices, pattern),
{
    assert forall|k: int| 0 <= k < indices.len() implies #[trigger] indices[k] < points.len() by {
        assert(is_forward_diff(points, entries[s + k]));
    }
    assert forall|a: int, b: int| 0 <= a < b < indices.len() implies #[trigger] indices[a]
        < #[trigger] indices[b] by {
        assert(crate::discovery::utilities::entry_lt(entries[s + a], entries[s + b]));
        assert(entries[s + a].0 == entries[s].0);
        assert(entries[s + b].0 == entries[s].0);
    }
}

/// A pattern selected from a point set whose differences fit can be
/// vectorized.
pub proof fn lemma_selection_can_vectorize(
    points: Seq<Point2Di64>,
    indices: Seq<usize>,
    pattern: Seq<Point2Di64>,
)
    requires
        differences_fit(points),
        selects(points, indices, pattern),
    ensures
        can_vectorize(pattern),
{
    assert forall|i: int| 0 <= i < pattern.len() - 1 implies (#[trigger] pattern[i + 1]).can_sub(
        pattern[i],
    ) by {
        assert(indices[i] < points.len());
        assert(indices[i + 1] < points.len());
        assert(pattern[i] == points[indices[i] as int]);
        assert(points[indices[i + 1] as int].can_sub(points[indices[i] as int]));
    }
}

/// What sorting does to the positions `0` to `count - 1`: they are all
/// still there, each once.
proof fn lemma_sorted_positions(unsorted: Seq<usize>, order: Seq<usize>, count: int)
    requires
        unsorted.len() == count,
        forall|k: int| 0 <= k < count ==> unsorted[k] == k,
        order.len() == unsorted.len(),
        forall|p: usize| order.contains(p) <==> unsorted.contains(p),
        unsorted.no_duplicates() ==> order.no_duplicates(),
    ensures
        order.len() == count,
        order.no_duplicates(),
        forall|x: int| 0 <= x < count ==> #[trigger] order[x] < count,
        forall|c: int| 0 <= c < count ==> order.contains(#[trigger] unsorted[c]),
{
    assert(unsorted.no_duplicates());
    assert forall|x: int| 0 <= x < count implies #[trigger] order[x] < count by {
        assert(order.contains(order[x]));
        let k = choose|k: int| 0 <= k < unsorted.len() && unsorted[k] == order[x];
    }
    assert forall|c: int| 0 <= c < count implies order.contains(#[trigger] unsorted[c]) by {
        assert(unsorted.contains(unsorted[c]));
    }
}

/// What has been picked once the first `k` positions of the sorted order
/// are dealt with.
#[verifier::opaque]
pub closed spec fn picked_up_to(
    shapes: Seq<Seq<Point2Di64>>,
    order: Seq<usize>,
    k: int,
    picked: Seq<usize>,
) -> bool {
    &&& forall|a: int| 0 <= a < picked.len() ==> #[trigger] picked[a] < shapes.len()
    &&& shapes_ascend(shapes, picked)
    &&& forall|x: int|
        0 <= x < k && x < order.len() ==> is_picked_for(shapes, picked, #[trigger] order[x] as int)
    &&& forall|a: int|
        0 <= a < picked.len() ==> has_shape_before(
            shapes,
            order,
            k,
            shapes[#[trigger] picked[a] as int],
        )
}

proof fn lemma_nothing_picked(shapes: Seq<Seq<Point2Di64>>, order: Seq<usize>)
    ensures
        picked_up_to(shapes, order, 0, Seq::<usize>::empty()),
{
    reveal(picked_up_to);
}

/// In the sorted order, what two positions `x < y` say of their shapes.
proof fn lemma_sorted_pair(shapes: Seq<Seq<Point2Di64>>, order: Seq<usize>, x: int, y: int)
    requires
        0 <= x < y < order.len(),
        order.no_duplicates(),
        forall|z: int| 0 <= z < order.len() ==> #[trigger] order[z] < shapes.len(),
        positions_sorted(shapes, order),
    ensures
        shapes[order[x] as int] == shapes[order[y] as int] ==> order[x] < order[y],
        shapes[order[x] as int] != shapes[order[y] as int] ==> shape_lt(
            shapes[order[x] as int],
            shapes[order[y] as int],
        ),
        !shape_lt(shapes[order[y] as int], shapes[order[x] as int]),
{
    assert(order[x] < shapes.len());
    assert(order[y] < shapes.len());
    lemma_shapes_are_ordered(shapes[order[x] as int], shapes[order[y] as int]);
    lemma_shape_order_is_strict(shapes[order[x] as int], shapes[order[y] as int]);
    assert(!position_lt(shapes, order[y], order[x]));
    assert(order[x] != order[y]);
}

/// In the sorted order, a position whose shape differs from that of its
/// predecessor has a larger shape than every position before it.
proof fn lemma_fresh_shape_is_larger(
    shapes: Seq<Seq<Point2Di64>>,
    order: Seq<usize>,
    x: int,
    k: int,
)
    requires
        0 <= x < k < order.len(),
        order.no_duplicates(),
        forall|z: int| 0 <= z < order.len() ==> #[trigger] order[z] < shapes.len(),
        positions_sorted(shapes, order),
        shapes[order[k] as int] != shapes[order[k - 1] as int],
    ensures
        shape_lt(shapes[order[x] as int], shapes[order[k] as int]),
{
    lemma_sorted_pair(shapes, order, x, k);
    if shapes[order[x] as int] == shapes[order[k] as int] {
        if x < k - 1 {
            lemma_sorted_pair(shapes, order, x, k - 1);
            lemma_sorted_pair(shapes, order, k - 1, k);
        }
    }
}

/// The picked positions stay in ascending order of shape when a position
/// with a fresh shape is added.
proof fn lemma_picked_stay_ascending(
    shapes: Seq<Seq<Point2Di64>>,
    order: Seq<usize>,
    k: int,
    before: Seq<usize>,
)
    requires
        0 <= k < order.len(),
        order.no_duplicates(),
        forall|z: int| 0 <= z < order.len() ==> #[trigger] order[z] < shapes.len(),
        positions_sorted(shapes, order),
        picked_up_to(shapes, order, k, before),
        k == 0 || shapes[order[k] as int] != shapes[order[k - 1] as int],
    ensures
        shapes_ascend(shapes, before.push(order[k])),
{
    reveal(picked_up_to);
    let after = before.push(order[k]);
    assert forall|a: int, b: int| 0 <= a < b < after.len() implies shape_lt(
        shapes[#[trigger] after[a] as int],
        shapes[#[trigger] after[b] as int],
    ) by {
        if b == before.len() {
            assert(has_shape_before(shapes, order, k, shapes[before[a] as int]));
            let x = choose|x: int|
                0 <= x < k && x < order.len() && shapes[#[trigger] order[x] as int]
                    == shapes[before[a] as int];
            lemma_fresh_shape_is_larger(shapes, order, x, k);
        } else {
            assert(shape_lt(shapes[before[a] as int], shapes[before[b] as int]));
        }
    }
}

/// Every position up to `k` of the sorted order has its shape picked, by a
/// position that does not come after it.
proof fn lemma_picked_covers(
    shapes: Seq<Seq<Point2Di64>>,
    order: Seq<usize>,
    k: int,
    before: Seq<usize>,
    fresh: bool,
)
    requires
        0 <= k < order.len(),
        order.no_duplicates(),
        forall|z: int| 0 <= z < order.len() ==> #[trigger] order[z] < shapes.len(),
        positions_sorted(shapes, order),
        picked_up_to(shapes, order, k, before),
        fresh <==> (k == 0 || shapes[order[k] as int] != shapes[order[k - 1] as int]),
    ensures
        forall|x: int|
            0 <= x < k + 1 && x < order.len() ==> is_picked_for(
                shapes,
                if fresh {
                    before.push(order[k])
                } else {
                    before
                },
                #[trigger] order[x] as int,
            ),
{
    reveal(picked_up_to);
    let after = if fresh {
        before.push(order[k])
    } else {
        before
    };
    assert forall|x: int| 0 <= x < k + 1 && x < order.len() implies is_picked_for(
        shapes,
        after,
        #[trigger] order[x] as int,
    ) by {
        if x < k {
            assert(is_picked_for(shapes, before, order[x] as int));
            let a = choose|a: int|
                0 <= a < before.len() && #[trigger] before[a] <= order[x] as int
                    && shapes[before[a] as int] == shapes[order[x] as int];
            assert(after[a] == before[a]);
        } else if fresh {
            assert(after[before.len() as int] == order[k]);
        } else {
            assert(is_picked_for(shapes, before, order[k - 1] as int));
            let a = choose|a: int|
                0 <= a < before.len() && #[trigger] before[a] <= order[k - 1] as int
                    && shapes[before[a] as int] == shapes[order[k - 1] as int];
            lemma_sorted_pair(shapes, order, k - 1, k);
            assert(after[a] == before[a]);
        }
    }
}

/// Every picked position has the shape of one of the positions dealt with.
proof fn lemma_picked_come_from_order(
    shapes: Seq<Seq<Point2Di64>>,
    order: Seq<usize>,
    k: int,
    before: Seq<usize>,
    after: Seq<usize>,
)
    requires
        0 <= k < order.len(),
        forall|z: int| 0 <= z < order.len() ==> #[trigger] order[z] < shapes.len(),
        picked_up_to(shapes, order, k, before),
        after == before || after == before.push(order[k]),
    ensures
        forall|a: int|
            0 <= a < after.len() ==> has_shape_before(
                shapes,
                order,
                k + 1,
                shapes[#[trigger] after[a] as int],
            ),
        forall|a: int| 0 <= a < after.len() ==> #[trigger] after[a] < shapes.len(),
{
    reveal(picked_up_to);
    assert forall|a: int| 0 <= a < after.len() implies has_shape_before(
        shapes,
        order,
        k + 1,
        shapes[#[trigger] after[a] as int],
    ) by {
        if a < before.len() {
            assert(has_shape_before(shapes, order, k, shapes[before[a] as int]));
            let x = choose|x: int|
                0 <= x < k && x < order.len() && shapes[#[trigger] order[x] as int]
                    == shapes[before[a] as int];
            assert(0 <= x < k + 1 && shapes[order[x] as int] == shapes[after[a] as int]);
        } else {
            assert(0 <= k < k + 1 && shapes[order[k] as int] == shapes[after[a] as int]);
        }
    }
    assert forall|a: int| 0 <= a < after.len() implies #[trigger] after[a] < shapes.len() by {
        if a < before.len() {
            assert(before[a] < shapes.len());
        } else {
            assert(order[k] < shapes.len());
        }
    }
}

/// After the position at `k` of the sorted order has been dealt with, the
/// positions up to it are.
proof fn lemma_position_picked(
    shapes: Seq<Seq<Point2Di64>>,
    order: Seq<usize>,
    k: int,
    before: Seq<usize>,
    fresh: bool,
)
    requires
        0 <= k < order.len(),
        order.len() == shapes.len(),
        order.no_duplicates(),
        forall|z: int| 0 <= z < order.len() ==> #[trigger] order[z] < shapes.len(),
        positions_sorted(shapes, order),
        picked_up_to(shapes, order, k, before),
        fresh <==> (k == 0 || shapes[order[k] as int] != shapes[order[k - 1] as int]),
    ensures
        picked_up_to(
            shapes,
            order,
            k + 1,
            if fresh {
                before.push(order[k])
            } else {
                before
            },
        ),
{
    let after = if fresh {
        before.push(order[k])
    } else {
        before
    };
    if fresh {
        lemma_picked_stay_ascending(shapes, order, k, before);
    } else {
        assert(shapes_ascend(shapes, before)) by {
            reveal(picked_up_to);
        }
    }
    lemma_picked_covers(shapes, order, k, before, fresh);
    lemma_picked_come_from_order(shapes, order, k, before, after);
    assert(picked_up_to(shapes, order, k + 1, after)) by {
        reveal(picked_up_to);
    }
}

/// Once the whole sorted order is dealt with, one position is picked for
/// each shape.
proof fn lemma_all_picked(
    shapes: Seq<Seq<Point2Di64>>,
    unsorted: Seq<usize>,
    order: Seq<usize>,
    picked: Seq<usize>,
)
    requires
        order.len() == shapes.len(),
        unsorted.len() == shapes.len(),
        forall|k: int| 0 <= k < unsorted.len() ==> unsorted[k] == k,
        forall|c: int| 0 <= c < unsorted.len() ==> order.contains(#[trigger] unsorted[c]),
        picked_up_to(shapes, order, order.len() as int, picked),
    ensures
        picks_first_of_each_shape(shapes, picked),
{
    reveal(picked_up_to);
    assert forall|c: int| 0 <= c < shapes.len() implies #[trigger] is_picked_for(
        shapes,
        picked,
        c,
    ) by {
        assert(order.contains(unsorted[c]));
        let x = choose|x: int| 0 <= x < order.len() && order[x] == unsorted[c];
        assert(is_picked_for(shapes, picked, order[x] as int));
    }
}

} // verus!
