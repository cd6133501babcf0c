//! Exact matching: all occurrences of a query pattern in a point set that
//! are translated copies of the whole query.

use crate::discovery::siatec_c::same_offset;
use crate::discovery::siatec_c::shifted_in;
use crate::point_set::pattern::Pattern;
use crate::point_set::point::Point2Di64;
use crate::point_set::set::strictly_ascending;
use crate::point_set::set::PointSet;
use crate::search::pattern_matcher::match_views;
use crate::search::pattern_matcher::matches_within;
use crate::search::pattern_matcher::patterns_at;
use crate::search::pattern_matcher::MatchCollector;
use crate::search::pattern_matcher::MatchOutput;
use crate::search::pattern_matcher::PatternMatcher;
use vstd::prelude::*;

verus! {

/// The indices are those of a translated copy of the query: the point at
/// each index lies relative to the point at the first index as the query's
/// point at that position lies relative to the query's first point.
pub open spec fn is_occurrence(
    points: Seq<Point2Di64>,
    query: Seq<Point2Di64>,
    indices: Seq<usize>,
) -> bool {
    &&& query.len() > 0
    &&& indices.len() == query.len()
    &&& forall|k: int| 0 <= k < indices.len() ==> #[trigger] indices[k] < points.len()
    &&& forall|k: int|
        0 <= k < indices.len() ==> same_offset(
            query[0],
            query[k],
            points[indices[0] as int],
            points[#[trigger] indices[k] as int],
        )
}

/// The query occurs with its first point at the point with index `i`.
pub open spec fn occurs_at(points: Seq<Point2Di64>, query: Seq<Point2Di64>, i: int) -> bool {
    forall|k: int|
        0 <= k < query.len() ==> shifted_in(points, #[trigger] query[k], query[0], points[i])
}

/// One of the matches begins at the point with index `i`.
pub open spec fn has_match_at(matches: Seq<Seq<usize>>, i: int) -> bool {
    exists|m: int| 0 <= m < matches.len() && (#[trigger] matches[m]).len() > 0 && matches[m][0] == i
}

/// What exact matching finds: translated copies of the query, in the order
/// of their first points; for a query in ascending order, all of them.
pub open spec fn are_exact_matches(
    points: Seq<Point2Di64>,
    query: Seq<Point2Di64>,
    matches: Seq<Seq<usize>>,
) -> bool {
    &&& forall|m: int| 0 <= m < matches.len() ==> is_occurrence(points, query, #[trigger] matches[m])
    &&& forall|a: int, b: int|
        0 <= a < b < matches.len() ==> (#[trigger] matches[a])[0] < (#[trigger] matches[b])[0]
    &&& strictly_ascending(query) && query.len() > 0 ==> forall|i: int|
        0 <= i < points.len() && #[trigger] occurs_at(points, query, i) ==> has_match_at(matches, i)
}

/// The order of the offset from `a` to `b` and the offset from `c` to `d`:
/// negative where the first is lexicographically smaller, zero where the
/// two are equal, positive otherwise.
pub open spec fn offset_order(a: Point2Di64, b: Point2Di64, c: Point2Di64, d: Point2Di64) -> int {
    if b.x - a.x < d.x - c.x {
        -1
    } else if b.x - a.x > d.x - c.x {
        1
    } else if b.y - a.y < d.y - c.y {
        -1
    } else if b.y - a.y > d.y - c.y {
        1
    } else {
        0
    }
}

/// Compares the offset from `a` to `b` with the offset from `c` to `d`.
pub fn order_of_offsets(a: &Point2Di64, b: &Point2Di64, c: &Point2Di64, d: &Point2Di64) -> (order: i8)
    ensures
        order == offset_order(*a, *b, *c, *d),
{
    let first_x = b.x as i128 - a.x as i128;
    let second_x = d.x as i128 - c.x as i128;
    let first_y = b.y as i128 - a.y as i128;
    let second_y = d.y as i128 - c.y as i128;
    if first_x < second_x {
        -1
    } else if first_x > second_x {
        1
    } else if first_y < second_y {
        -1
    } else if first_y > second_y {
        1
    } else {
        0
    }
}

/// Implements a pattern matcher that finds all translationally equivalent
/// occurrences of a pattern from a point-set.
pub struct ExactMatcher {}

impl PatternMatcher for ExactMatcher {
    open spec fn accepts(&self, query: Seq<Point2Di64>, points: Seq<Point2Di64>) -> bool {
        true
    }

    open spec fn finds(
        &self,
        query: Seq<Point2Di64>,
        points: Seq<Point2Di64>,
        matches: Seq<Seq<usize>>,
    ) -> bool {
        are_exact_matches(points, query, matches)
    }

    fn find_indices_with_callback<O: MatchOutput>(
        &self,
        query: &Pattern,
        point_set: &PointSet,
        on_output: &mut O,
    ) {
        proof {
            use_type_invariant(point_set);
        }
        let ghost points = point_set@;
        let ghost shape = query@;
        let ghost found: Seq<Seq<usize>> = Seq::empty();
        assert(old(on_output).received() + found =~= old(on_output).received());
        let n = point_set.len();
        let q = query.len();
        if q == 0 || q > n {
            proof {
                if q > n && strictly_ascending(shape) {
                    assert forall|i: int|
                        0 <= i < points.len() && #[trigger] occurs_at(
                            points,
                            shape,
                            i,
                        ) implies has_match_at(found, i) by {
                        lemma_occurrence_needs_room(points, shape, i);
                    }
                }
                assert(self.finds(shape, points, found));
            }
            return;
        }
        let first = query[0];
        let mut i: usize = 0;
        while i <= n - q
            invariant
                0 < q <= n,
                i <= n - q + 1,
                n == points.len(),
                q == shape.len(),
                points == point_set@,
                shape == query@,
                first == shape[0],
                strictly_ascending(points),
                on_output.received() == old(on_output).received() + found,
                matches_within(found, n as int),
                forall|m: int| 0 <= m < found.len() ==> is_occurrence(points, shape, #[trigger] found[m]),
                forall|m: int| 0 <= m < found.len() ==> (#[trigger] found[m])[0] < i,
                forall|a: int, b: int|
                    0 <= a < b < found.len() ==> (#[trigger] found[a])[0] < (#[trigger] found[b])[0],
                strictly_ascending(shape) ==> forall|r: int|
                    0 <= r < i && #[trigger] occurs_at(points, shape, r) ==> has_match_at(found, r),
            decreases n - q + 1 - i,
        {
            let start = point_set[i];
            let mut candidate: Vec<usize> = Vec::with_capacity(q);
            let mut scan_index: usize = i;
            let mut query_index: usize = 0;
            let mut matching = true;
            while query_index < q && matching
                invariant
                    0 < q <= n,
                    i <= n - q,
                    i <= scan_index <= n,
                    query_index <= q,
                    n == points.len(),
                    q == shape.len(),
                    points == point_set@,
                    shape == query@,
                    first == shape[0],
                    start == points[i as int],
                    strictly_ascending(points),
                    candidate@.len() == query_index,
                    query_index > 0 ==> candidate@[0] == i,
                    forall|k: int| 0 <= k < candidate@.len() ==> #[trigger] candidate@[k] < scan_index,
                    forall|k: int| 0 <= k < candidate@.len() ==> #[trigger] candidate@[k] < n,
                    forall|k: int|
                        0 <= k < candidate@.len() ==> same_offset(
                            first,
                            shape[k],
                            start,
                            points[#[trigger] candidate@[k] as int],
                        ),
                    !matching ==> !occurs_at(points, shape, i as int) || !strictly_ascending(shape),
                    matching && strictly_ascending(shape) && query_index < q ==> forall|r: int|
                        i <= r < scan_index ==> offset_order(
                            start,
                            #[trigger] points[r],
                            first,
                            shape[query_index as int],
                        ) < 0,
                decreases q - query_index, matching as int,
            {
                let wanted = query[query_index];
                let ghost scan_start = scan_index;
                while scan_index < n && order_of_offsets(&start, &point_set[scan_index], &first, &wanted)
                    < 0
                    invariant
                        i <= scan_index <= n,
                        scan_start <= scan_index,
                        n == points.len(),
                        points == point_set@,
                        start == points[i as int],
                        forall|r: int|
                            i <= r < scan_index && strictly_ascending(shape) ==> offset_order(
                                start,
                                #[trigger] points[r],
                                first,
                                wanted,
                            ) < 0,
                    decreases n - scan_index,
                {
                    scan_index += 1;
                }
                if scan_index < n && order_of_offsets(&start, &point_set[scan_index], &first, &wanted)
                    == 0 {
                    let ghost earlier = candidate@;
                    candidate.push(scan_index);
                    proof {
                        assert forall|k: int| 0 <= k < candidate@.len() implies #[trigger] candidate@[k]
                            < scan_index + 1 by {
                            if k < earlier.len() {
                                assert(candidate@[k] == earlier[k]);
                            }
                        }
                        if query_index + 1 < q && strictly_ascending(shape) {
                            assert(shape[query_index as int].lex_lt(shape[query_index + 1]));
                            assert forall|r: int| i <= r < scan_index + 1 implies offset_order(
                                start,
                                #[trigger] points[r],
                                first,
                                shape[query_index + 1],
                            ) < 0 by {
                                if r < scan_index {
                                    assert(offset_order(start, points[r], first, wanted) < 0);
                                }
                            }
                        }
                        if query_index == 0 {
                            if scan_index > i {
                                assert(offset_order(start, points[i as int], first, wanted) < 0);
                            }
                        }
                    }
                    scan_index += 1;
                    query_index += 1;
                } else {
                    proof {
                        if strictly_ascending(shape) && occurs_at(points, shape, i as int) {
                            assert(shifted_in(points, shape[query_index as int], first, start));
                            let r = choose|r: int|
                                0 <= r < points.len() && same_offset(
                                    shape[query_index as int],
                                    #[trigger] points[r],
                                    first,
                                    start,
                                );
                            assert(offset_order(start, points[r], first, wanted) == 0);
                            assert(shape[0].lex_le(shape[query_index as int])) by {
                                if query_index > 0 {
                                    assert(shape[0].lex_lt(shape[query_index as int]));
                                }
                            }
                            if r < i {
                                assert(points[r].lex_lt(points[i as int]));
                            } else if r < scan_index {
                                assert(offset_order(start, points[r], first, wanted) < 0);
                            } else if r > scan_index {
                                assert(points[scan_index as int].lex_lt(points[r]));
                            }
                        }
                    }
                    matching = false;
                }
            }
            if matching {
                proof {
                    let longer = found.push(candidate@);
                    assert forall|k: int| 0 <= k < candidate@.len() implies same_offset(
                        shape[0],
                        shape[k],
                        points[candidate@[0] as int],
                        points[#[trigger] candidate@[k] as int],
                    ) by {
                        assert(same_offset(first, shape[k], start, points[candidate@[k] as int]));
                    }
                    assert(is_occurrence(points, shape, candidate@));
                    assert forall|m: int| 0 <= m < longer.len() implies is_occurrence(
                        points,
                        shape,
                        #[trigger] longer[m],
                    ) && longer[m][0] < i + 1 by {
                        if m < found.len() {
                            assert(longer[m] == found[m]);
                        }
                    }
                    assert forall|a: int, b: int| 0 <= a < b < longer.len() implies (
                    #[trigger] longer[a])[0] < (#[trigger] longer[b])[0] by {
                        if b < found.len() {
                            assert(found[a][0] < found[b][0]);
                        } else {
                            assert(longer[a] == found[a]);
                        }
                    }
                    assert forall|m: int, k: int|
                        0 <= m < longer.len() && 0 <= k < longer[m].len() implies #[trigger] longer[m][k]
                        < n by {
                        if m < found.len() {
                            assert(longer[m] == found[m]);
                            assert(found[m][k] < n);
                        }
                    }
                    if strictly_ascending(shape) {
                        assert forall|r: int|
                            0 <= r < i + 1 && #[trigger] occurs_at(
                                points,
                                shape,
                                r,
                            ) implies has_match_at(longer, r) by {
                            if r < i {
                                assert(has_match_at(found, r));
                                let m = choose|m: int|
                                    0 <= m < found.len() && (#[trigger] found[m]).len() > 0
                                        && found[m][0] == r;
                                assert(longer[m] == found[m]);
                            } else {
                                assert(longer[found.len() as int] == candidate@);
                            }
                        }
                    }
                    assert((old(on_output).received() + found).push(candidate@) =~= old(
                        on_output,
                    ).received() + longer);
                    found = longer;
                }
                on_output.output(candidate);
            }
            i += 1;
        }
        proof {
            if strictly_ascending(shape) {
                assert forall|r: int|
                    0 <= r < points.len() && #[trigger] occurs_at(
                        points,
                        shape,
                        r,
                    ) implies has_match_at(found, r) by {
                    if r >= i {
                        lemma_occurrence_needs_room(points, shape, r);
                    }
                }
            }
            assert(self.finds(shape, points, found));
        }
    }

    fn find_indices(&self, query: &Pattern, point_set: &PointSet) -> (matches: Vec<Vec<usize>>) {
        let mut collector = MatchCollector { matches: Vec::new() };
        self.find_indices_with_callback(query, point_set, &mut collector);
        proof {
            let found = choose|found: Seq<Seq<usize>>|
                #![trigger self.finds(query@, point_set@, found)]
                self.finds(query@, point_set@, found) && matches_within(
                    found,
                    point_set@.len() as int,
                ) && collector.received() == Seq::<Seq<usize>>::empty() + found;
            assert(match_views(Seq::<Vec<usize>>::empty()) =~= Seq::<Seq<usize>>::empty());
            assert(Seq::<Seq<usize>>::empty() + found =~= found);
        }
        collector.matches
    }

    fn find_occurrences(&self, query: &Pattern, point_set: &PointSet) -> (occurrences: Vec<Pattern>) {
        let matches = self.find_indices(query, point_set);
        let occurrences = patterns_at(point_set, &matches);
        proof {
            assert(self.finds(query@, point_set@, match_views(matches@)));
        }
        occurrences
    }
}

/// An occurrence of a query in ascending order needs as many points from
/// its first point on as the query has.
proof fn lemma_occurrence_needs_room(points: Seq<Point2Di64>, query: Seq<Point2Di64>, i: int)
    requires
        strictly_ascending(points),
        strictly_ascending(query),
        query.len() > 0,
        0 <= i < points.len(),
        occurs_at(points, query, i),
    ensures
        i + query.len() <= points.len(),
{
    let last = lemma_occurrence_rows(points, query, i, query.len() - 1);
}

/// The point at position `k` of an occurrence lies at least `k` points
/// after the first.
proof fn lemma_occurrence_rows(points: Seq<Point2Di64>, query: Seq<Point2Di64>, i: int, k: int) -> (row:
    int)
    requires
        strictly_ascending(points),
        strictly_ascending(query),
        0 <= i < points.len(),
        0 <= k < query.len(),
        occurs_at(points, query, i),
    ensures
        i + k <= row < points.len(),
        same_offset(query[k], points[row], query[0], points[i]),
    decreases k,
{
    if k == 0 {
        i
    } else {
        let previous = lemma_occurrence_rows(points, query, i, k - 1);
        assert(shifted_in(points, query[k], query[0], points[i]));
        let row = choose|row: int|
            0 <= row < points.len() && same_offset(
                query[k],
                #[trigger] points[row],
                query[0],
                points[i],
            );
        assert(query[k - 1].lex_lt(query[k]));
        assert(points[previous].lex_lt(points[row]));
        if row <= previous {
            if row < previous {
                assert(points[row].lex_lt(points[previous]));
            }
        }
        row
    }
}

} // verus!
