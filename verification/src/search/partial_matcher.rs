//! Partial matching: occurrences of a query pattern in a point set that may
//! lack some of the query's points.

use crate::discovery::siatec_c::has_index;
use crate::discovery::siatec_c::indices_ascending;
use crate::discovery::utilities::entries_ascending;
use crate::discovery::utilities::entries_sorted;
use crate::discovery::utilities::entry_lt;
use crate::discovery::utilities::sort;
use crate::point_set::pattern::Pattern;
use crate::point_set::point::is_diff;
use crate::point_set::point::Point2Di64;
use crate::point_set::set::PointSet;
use crate::search::pattern_matcher::match_views;
use crate::search::pattern_matcher::matches_within;
use crate::search::pattern_matcher::patterns_at;
use crate::search::pattern_matcher::MatchCollector;
use crate::search::pattern_matcher::MatchOutput;
use crate::search::pattern_matcher::PatternMatcher;
use vstd::prelude::*;

verus! {

/// The difference from every point of the query to every point of the set
/// fits a point.
pub open spec fn query_fits(query: Seq<Point2Di64>, points: Seq<Point2Di64>) -> bool {
    forall|i: int, j: int|
        0 <= i < query.len() && 0 <= j < points.len() ==> (#[trigger] points[j]).can_sub(
            #[trigger] query[i],
        )
}

/// The translator moves some point of the query onto `p`.
pub open spec fn is_reached(query: Seq<Point2Di64>, translator: Point2Di64, p: Point2Di64) -> bool {
    exists|i: int| 0 <= i < query.len() && is_diff(p, #[trigger] query[i], translator)
}

/// The indices are, in ascending order, those of all the points onto which
/// the translator moves a point of the query, each as often as there are
/// such points of the query.
pub open spec fn is_partial_match(
    points: Seq<Point2Di64>,
    query: Seq<Point2Di64>,
    translator: Point2Di64,
    indices: Seq<usize>,
) -> bool {
    &&& forall|k: int|
        0 <= k < indices.len() ==> #[trigger] indices[k] < points.len() && is_reached(
            query,
            translator,
            points[indices[k] as int],
        )
    &&& forall|a: int, b: int|
        0 <= a < b < indices.len() ==> #[trigger] indices[a] <= #[trigger] indices[b]
    &&& forall|j: int|
        0 <= j < points.len() && is_reached(query, translator, #[trigger] points[j]) ==> has_index(
            indices,
            j,
        )
}

/// What partial matching finds: for some translators, in ascending order,
/// the partial match of the query under the translator, each with at least
/// `min_match_size` indices.
pub open spec fn are_partial_matches(
    points: Seq<Point2Di64>,
    query: Seq<Point2Di64>,
    min_match_size: usize,
    matches: Seq<Seq<usize>>,
) -> bool {
    exists|translators: Seq<Point2Di64>|
        #![trigger matches_under(points, query, min_match_size, translators, matches)]
        matches_under(points, query, min_match_size, translators, matches)
}

/// The matches are the partial matches of the query under the translators,
/// which come in ascending order, and each has at least `min_match_size`
/// indices. For a query that holds no point twice, each match holds no
/// index twice, and no translator is left out under which the query has a
/// partial match of at least `min_match_size` indices.
pub open spec fn matches_under(
    points: Seq<Point2Di64>,
    query: Seq<Point2Di64>,
    min_match_size: usize,
    translators: Seq<Point2Di64>,
    matches: Seq<Seq<usize>>,
) -> bool {
    &&& translators.len() == matches.len()
    &&& forall|m: int|
        0 <= m < matches.len() ==> (#[trigger] matches[m]).len() >= min_match_size
            && matches[m].len() > 0 && is_partial_match(points, query, translators[m], matches[m])
    &&& forall|a: int, b: int|
        0 <= a < b < translators.len() ==> (#[trigger] translators[a]).lex_lt(
            #[trigger] translators[b],
        )
    &&& query.no_duplicates() ==> forall|m: int|
        0 <= m < matches.len() ==> indices_ascending(#[trigger] matches[m])
    &&& query.no_duplicates() ==> forall|t: Point2Di64, indices: Seq<usize>|
        #[trigger] is_partial_match(points, query, t, indices) && indices_ascending(indices)
            && indices.len() > 0 && indices.len() >= min_match_size ==> translators.contains(t)
}

/// The query has a partial match under the translator that holds no index
/// twice and has fewer than `min_match_size` indices.
pub open spec fn has_short_match(
    points: Seq<Point2Di64>,
    query: Seq<Point2Di64>,
    min_match_size: usize,
    translator: Point2Di64,
) -> bool {
    exists|indices: Seq<usize>|
        #![trigger is_partial_match(points, query, translator, indices)]
        is_partial_match(points, query, translator, indices) && indices_ascending(indices)
            && indices.len() < min_match_size
}

/// The entries before position `i` are dealt with: for the difference of
/// each of them there is a match, or the partial match under it is too
/// short.
pub open spec fn runs_done(
    points: Seq<Point2Di64>,
    query: Seq<Point2Di64>,
    min_match_size: usize,
    entries: Seq<(Point2Di64, usize)>,
    i: int,
    translators: Seq<Point2Di64>,
) -> bool {
    forall|x: int|
        0 <= x < i && x < entries.len() ==> translators.contains((#[trigger] entries[x]).0)
            || has_short_match(points, query, min_match_size, entries[x].0)
}

/// The entries are, in ascending order, the differences from the points of
/// the query to the points of the set, each with the index of the point of
/// the set.
pub open spec fn is_query_diff_list(
    points: Seq<Point2Di64>,
    query: Seq<Point2Di64>,
    entries: Seq<(Point2Di64, usize)>,
) -> bool {
    &&& entries_sorted(entries)
    &&& query.no_duplicates() ==> entries_ascending(entries)
    &&& forall|k: int|
        0 <= k < entries.len() ==> (#[trigger] entries[k]).1 < points.len() && is_reached(
            query,
            entries[k].0,
            points[entries[k].1 as int],
        )
    &&& forall|i: int, j: int|
        0 <= i < query.len() && 0 <= j < points.len() ==> #[trigger] has_query_entry(
            entries,
            j,
            query[i],
            points[j],
        )
}

/// The entry holds a difference from one of the points of the query that
/// have been dealt with: one before position `i`, or the one at `i` where
/// the index of the entry is below `j`.
pub open spec fn is_made_before(
    points: Seq<Point2Di64>,
    query: Seq<Point2Di64>,
    entry: (Point2Di64, usize),
    i: int,
    j: int,
) -> bool {
    exists|a: int|
        0 <= a < query.len() && (a < i || (a == i && entry.1 < j)) && is_diff(
            points[entry.1 as int],
            #[trigger] query[a],
            entry.0,
        )
}

/// Some entry holds the difference from `from` to `to`, the point of the
/// set with index `j`.
pub open spec fn has_query_entry(
    entries: Seq<(Point2Di64, usize)>,
    j: int,
    from: Point2Di64,
    to: Point2Di64,
) -> bool {
    exists|x: int|
        0 <= x < entries.len() && (#[trigger] entries[x]).1 == j && is_diff(to, from, entries[x].0)
}

/// Implements a pattern matcher that finds all partially translationally
/// equivalent occurrences of a pattern from a point-set.
pub struct PartialMatcher {
    /// Minimum number of matching points required for a match to be
    /// considered a match.
    pub min_match_size: usize,
}

impl PatternMatcher for PartialMatcher {
    open spec fn accepts(&self, query: Seq<Point2Di64>, points: Seq<Point2Di64>) -> bool {
        query_fits(query, points)
    }

    open spec fn finds(
        &self,
        query: Seq<Point2Di64>,
        points: Seq<Point2Di64>,
        matches: Seq<Seq<usize>>,
    ) -> bool {
        are_partial_matches(points, query, self.min_match_size, matches)
    }

    fn find_indices_with_callback<O: MatchOutput>(
        &self,
        query: &Pattern,
        point_set: &PointSet,
        on_output: &mut O,
    ) {
        let diff_indices = PartialMatcher::compute_differences(query, point_set);
        self.partition(query, point_set, &diff_indices, on_output);
        proof {
            let found = choose|found: Seq<Seq<usize>>|
                #![trigger are_partial_matches(point_set@, query@, self.min_match_size, found)]
                are_partial_matches(point_set@, query@, self.min_match_size, found)
                    && matches_within(found, point_set@.len() as int) && on_output.received()
                    == old(on_output).received() + found;
            assert(self.finds(query@, point_set@, found));
        }
    }

    fn find_indices(&self, query: &Pattern, point_set: &PointSet) -> (matches: Vec<Vec<usize>>) {
        let mut collector = MatchCollector { matches: Vec::new() };
        self.find_indices_with_callback(query, point_set, &mut collector);
        proof {
            let found = choose|found: Seq<Seq<usize>>|
                #![trigger self.finds(query@, point_set@, found)]
                self.finds(query@, point_set@, found) && matches_within(
                    found,
                    point_set@.len() as int,
                ) && collector.received() == Seq::<Seq<usize>>::empty() + found;
            assert(match_views(Seq::<Vec<usize>>::empty()) =~= Seq::<Seq<usize>>::empty());
            assert(Seq::<Seq<usize>>::empty() + found =~= found);
        }
        collector.matches
    }

    fn find_occurrences(&self, query: &Pattern, point_set: &PointSet) -> (occurrences: Vec<Pattern>) {
        let matches = self.find_indices(query, point_set);
        let occurrences = patterns_at(point_set, &matches);
        proof {
            assert(self.finds(query@, point_set@, match_views(matches@)));
        }
        occurrences
    }
}

impl PartialMatcher {
    /// Computes the differences from every point of the query to every
    /// point of the set, each with the index of the point of the set, and
    /// sorts them.
    pub fn compute_differences(query: &Pattern, point_set: &PointSet) -> (diff_indices: Vec<
        (Point2Di64, usize),
    >)
        requires
            query_fits(query@, point_set@),
        ensures
            is_query_diff_list(point_set@, query@, diff_indices@),
    {
        let ghost points = point_set@;
        let ghost shape = query@;
        let mut diff_indices: Vec<(Point2Di64, usize)> = Vec::new();
        let q = query.len();
        let n = point_set.len();
        let mut i: usize = 0;
        while i < q
            invariant
                i <= q,
                q == shape.len(),
                n == points.len(),
                points == point_set@,
                shape == query@,
                query_fits(shape, points),
                forall|k: int|
                    0 <= k < diff_indices@.len() ==> (#[trigger] diff_indices@[k]).1 < points.len()
                        && is_reached(shape, diff_indices@[k].0, points[diff_indices@[k].1 as int]),
                forall|a: int, j: int|
                    0 <= a < i && 0 <= j < n ==> #[trigger] has_query_entry(
                        diff_indices@,
                        j,
                        shape[a],
                        points[j],
                    ),
                forall|k: int|
                    0 <= k < diff_indices@.len() ==> is_made_before(
                        points,
                        shape,
                        #[trigger] diff_indices@[k],
                        i as int,
                        0,
                    ),
                shape.no_duplicates() ==> diff_indices@.no_duplicates(),
            decreases q - i,
        {
            let from = query[i];
            let mut j: usize = 0;
            proof {
                assert forall|k: int| 0 <= k < diff_indices@.len() implies is_made_before(
                    points,
                    shape,
                    #[trigger] diff_indices@[k],
                    i as int,
                    0,
                ) by {}
            }
            while j < n
                invariant
                    i < q,
                    j <= n,
                    q == shape.len(),
                    n == points.len(),
                    points == point_set@,
                    shape == query@,
                    from == shape[i as int],
                    query_fits(shape, points),
                    forall|k: int|
                        0 <= k < diff_indices@.len() ==> (#[trigger] diff_indices@[k]).1
                            < points.len() && is_reached(
                            shape,
                            diff_indices@[k].0,
                            points[diff_indices@[k].1 as int],
                        ),
                    forall|a: int, b: int|
                        0 <= a < i && 0 <= b < n ==> #[trigger] has_query_entry(
                            diff_indices@,
                            b,
                            shape[a],
                            points[b],
                        ),
                    forall|b: int|
                        0 <= b < j ==> #[trigger] has_query_entry(diff_indices@, b, from, points[b]),
                    forall|k: int|
                        0 <= k < diff_indices@.len() ==> is_made_before(
                            points,
                            shape,
                            #[trigger] diff_indices@[k],
                            i as int,
                            j as int,
                        ),
                    shape.no_duplicates() ==> diff_indices@.no_duplicates(),
                decreases n - j,
            {
                assert(points[j as int].can_sub(shape[i as int]));
                let diff = point_set[j] - from;
                let ghost before = diff_indices@;
                diff_indices.push((diff, j));
                proof {
                    assert(is_diff(points[j as int], shape[i as int], diff));
                    assert forall|a: int, b: int|
                        0 <= a < i && 0 <= b < n implies #[trigger] has_query_entry(
                        diff_indices@,
                        b,
                        shape[a],
                        points[b],
                    ) by {
                        assert(has_query_entry(before, b, shape[a], points[b]));
                        let x = choose|x: int|
                            0 <= x < before.len() && (#[trigger] before[x]).1 == b && is_diff(
                                points[b],
                                shape[a],
                                before[x].0,
                            );
                        assert(diff_indices@[x] == before[x]);
                    }
                    assert forall|b: int| 0 <= b < j + 1 implies #[trigger] has_query_entry(
                        diff_indices@,
                        b,
                        from,
                        points[b],
                    ) by {
                        if b < j {
                            assert(has_query_entry(before, b, from, points[b]));
                            let x = choose|x: int|
                                0 <= x < before.len() && (#[trigger] before[x]).1 == b && is_diff(
                                    points[b],
                                    from,
                                    before[x].0,
                                );
                            assert(diff_indices@[x] == before[x]);
                        } else {
                            assert(diff_indices@[before.len() as int] == (diff, j));
                        }
                    }
                    assert forall|k: int| 0 <= k < diff_indices@.len() implies (
                    #[trigger] diff_indices@[k]).1 < points.len() && is_reached(
                        shape,
                        diff_indices@[k].0,
                        points[diff_indices@[k].1 as int],
                    ) by {
                        if k < before.len() {
                            assert(diff_indices@[k] == before[k]);
                        }
                    }
                    assert forall|k: int| 0 <= k < diff_indices@.len() implies is_made_before(
                        points,
                        shape,
                        #[trigger] diff_indices@[k],
                        i as int,
                        j + 1,
                    ) by {
                        if k < before.len() {
                            assert(diff_indices@[k] == before[k]);
                            assert(is_made_before(points, shape, before[k], i as int, j as int));
                            let a = choose|a: int|
                                0 <= a < shape.len() && (a < i || (a == i && before[k].1 < j))
                                    && is_diff(
                                    points[before[k].1 as int],
                                    #[trigger] shape[a],
                                    before[k].0,
                                );
                            assert(is_diff(points[before[k].1 as int], shape[a], before[k].0));
                        } else {
                            assert(is_diff(
                                points[diff_indices@[k].1 as int],
                                shape[i as int],
                                diff_indices@[k].0,
                            ));
                        }
                    }
                    if shape.no_duplicates() {
                        assert forall|x: int, y: int|
                            0 <= x < diff_indices@.len() && 0 <= y < diff_indices@.len() && x
                                != y implies diff_indices@[x] != diff_indices@[y] by {
                            let low = if x < y {
                                x
                            } else {
                                y
                            };
                            let high = if x < y {
                                y
                            } else {
                                x
                            };
                            if high == before.len() {
                                assert(is_made_before(points, shape, before[low], i as int, j as int));
                                let a = choose|a: int|
                                    0 <= a < shape.len() && (a < i || (a == i && before[low].1 < j))
                                        && is_diff(
                                        points[before[low].1 as int],
                                        #[trigger] shape[a],
                                        before[low].0,
                                    );
                                if before[low] == (diff, j) {
                                    assert(shape[a] == shape[i as int]);
                                }
                            } else {
                                assert(before[low] != before[high]);
                            }
                        }
                    }
                }
                j += 1;
            }
            proof {
                assert forall|k: int| 0 <= k < diff_indices@.len() implies is_made_before(
                    points,
                    shape,
                    #[trigger] diff_indices@[k],
                    i + 1,
                    0,
                ) by {
                    assert(is_made_before(points, shape, diff_indices@[k], i as int, n as int));
                    let a = choose|a: int|
                        0 <= a < shape.len() && (a < i || (a == i && diff_indices@[k].1 < n))
                            && is_diff(
                            points[diff_indices@[k].1 as int],
                            #[trigger] shape[a],
                            diff_indices@[k].0,
                        );
                    assert(a < i + 1);
                }
            }
            i += 1;
        }
        let ghost unsorted = diff_indices@;
        sort(&mut diff_indices);
        proof {
            assert forall|k: int| 0 <= k < diff_indices@.len() implies (
            #[trigger] diff_indices@[k]).1 < points.len() && is_reached(
                shape,
                diff_indices@[k].0,
                points[diff_indices@[k].1 as int],
            ) by {
                assert(diff_indices@.contains(diff_indices@[k]));
                let m = choose|m: int| 0 <= m < unsorted.len() && unsorted[m] == diff_indices@[k];
                assert(unsorted[m].1 < points.len());
            }
            assert forall|a: int, b: int|
                0 <= a < shape.len() && 0 <= b < points.len() implies #[trigger] has_query_entry(
                diff_indices@,
                b,
                shape[a],
                points[b],
            ) by {
                assert(has_query_entry(unsorted, b, shape[a], points[b]));
                let x = choose|x: int|
                    0 <= x < unsorted.len() && (#[trigger] unsorted[x]).1 == b && is_diff(
                        points[b],
                        shape[a],
                        unsorted[x].0,
                    );
                assert(unsorted.contains(unsorted[x]));
                let y = choose|y: int| 0 <= y < diff_indices@.len() && diff_indices@[y] == unsorted[x];
                assert(diff_indices@[y].1 == b);
            }
        }
        diff_indices
    }

    /// Partitions the sorted list of difference-index pairs into partial
    /// matches of at least the minimal size: each maximal run of equal
    /// differences that is long enough becomes one match.
    pub fn partition<O: MatchOutput>(
        &self,
        query: &Pattern,
        point_set: &PointSet,
        diffs: &Vec<(Point2Di64, usize)>,
        on_output: &mut O,
    )
        requires
            is_query_diff_list(point_set@, query@, diffs@),
        ensures
            exists|matches: Seq<Seq<usize>>|
                #![trigger are_partial_matches(point_set@, query@, self.min_match_size, matches)]
                are_partial_matches(point_set@, query@, self.min_match_size, matches)
                    && matches_within(matches, point_set@.len() as int)
                    && final(on_output).received() == old(on_output).received() + matches,
    {
        let ghost points = point_set@;
        let ghost shape = query@;
        let ghost entries = diffs@;
        let ghost found: Seq<Seq<usize>> = Seq::empty();
        let ghost translators: Seq<Point2Di64> = Seq::empty();
        assert(old(on_output).received() + found =~= old(on_output).received());
        let m = diffs.len();
        let mut i: usize = 0;
        while i < m
            invariant
                i <= m,
                m == entries.len(),
                entries == diffs@,
                points == point_set@,
                shape == query@,
                is_query_diff_list(points, shape, entries),
                on_output.received() == old(on_output).received() + found,
                matches_within(found, points.len() as int),
                0 < i < m ==> entries[i - 1].0 != entries[i as int].0,
                translators.len() == found.len(),
                forall|x: int|
                    0 <= x < found.len() ==> (#[trigger] found[x]).len() >= self.min_match_size
                        && found[x].len() > 0 && is_partial_match(
                        points,
                        shape,
                        translators[x],
                        found[x],
                    ),
                forall|a: int, b: int|
                    0 <= a < b < translators.len() ==> (#[trigger] translators[a]).lex_lt(
                        #[trigger] translators[b],
                    ),
                shape.no_duplicates() ==> forall|x: int|
                    0 <= x < found.len() ==> indices_ascending(#[trigger] found[x]),
                shape.no_duplicates() ==> runs_done(
                    points,
                    shape,
                    self.min_match_size,
                    entries,
                    i as int,
                    translators,
                ),
                forall|k: int|
                    0 <= k < translators.len() && i < m ==> (#[trigger] translators[k]).lex_lt(
                        entries[i as int].0,
                    ),
            decreases m - i,
        {
            let mut indices: Vec<usize> = Vec::new();
            let translator = diffs[i].0;
            let mut j: usize = i;
            while j < m && translator == diffs[j].0
                invariant
                    i <= j <= m,
                    i < m,
                    m == entries.len(),
                    entries == diffs@,
                    translator == entries[i as int].0,
                    indices@.len() == j - i,
                    forall|k: int| 0 <= k < j - i ==> indices@[k] == entries[i + k].1,
                    forall|x: int| i <= x < j ==> (#[trigger] entries[x]).0 == translator,
                decreases m - j,
            {
                indices.push(diffs[j].1);
                j += 1;
            }
            let ghost translators_before = translators;
            proof {
                lemma_run_is_partial_match(points, shape, entries, i as int, j as int, indices@);
                if shape.no_duplicates() {
                    lemma_run_holds_no_index_twice(
                        points,
                        shape,
                        entries,
                        i as int,
                        j as int,
                        indices@,
                    );
                }
                if j < m {
                    lemma_later_run_is_larger(entries, i as int, j as int);
                    assert forall|k: int| 0 <= k < translators.len() implies (
                    #[trigger] translators[k]).lex_lt(entries[j as int].0) by {
                        assert(translators[k].lex_lt(entries[i as int].0));
                    }
                }
            }
            if indices.len() >= self.min_match_size {
                proof {
                    let longer = found.push(indices@);
                    let more = translators.push(translator);
                    assert forall|x: int| 0 <= x < longer.len() implies (#[trigger] longer[x]).len()
                        >= self.min_match_size && longer[x].len() > 0 && is_partial_match(
                        points,
                        shape,
                        more[x],
                        longer[x],
                    ) by {
                        if x < found.len() {
                            assert(longer[x] == found[x]);
                            assert(more[x] == translators[x]);
                        }
                    }
                    assert forall|a: int, b: int| 0 <= a < b < more.len() implies (
                    #[trigger] more[a]).lex_lt(#[trigger] more[b]) by {
                        if b < translators.len() {
                            assert(translators[a].lex_lt(translators[b]));
                        } else {
                            assert(more[a] == translators[a]);
                        }
                    }
                    assert forall|x: int, k: int|
                        0 <= x < longer.len() && 0 <= k < longer[x].len() implies #[trigger] longer[x][k]
                        < points.len() by {
                        if x < found.len() {
                            assert(longer[x] == found[x]);
                            assert(found[x][k] < points.len());
                        } else {
                            assert(indices@[k] < points.len());
                        }
                    }
                    if j < m {
                        assert forall|k: int| 0 <= k < more.len() implies (#[trigger] more[k]).lex_lt(
                            entries[j as int].0,
                        ) by {
                            if k < translators.len() {
                                assert(more[k] == translators[k]);
                            }
                        }
                    }
                    if shape.no_duplicates() {
                        assert forall|x: int| 0 <= x < longer.len() implies indices_ascending(
                            #[trigger] longer[x],
                        ) by {
                            if x < found.len() {
                                assert(longer[x] == found[x]);
                            }
                        }
                    }
                    assert((old(on_output).received() + found).push(indices@) =~= old(
                        on_output,
                    ).received() + longer);
                    found = longer;
                    translators = more;
                }
                on_output.output(indices);
            }
            proof {
                if shape.no_duplicates() {
                    let kept = indices@.len() >= self.min_match_size;
                    assert forall|x: int| 0 <= x < j && x < entries.len() implies translators.contains(
                        (#[trigger] entries[x]).0,
                    ) || has_short_match(points, shape, self.min_match_size, entries[x].0) by {
                        if x < i {
                            if translators_before.contains(entries[x].0) {
                                let k = choose|k: int|
                                    0 <= k < translators_before.len() && translators_before[k]
                                        == entries[x].0;
                                assert(translators[k] == entries[x].0);
                            }
                        } else if kept {
                            assert(translators[translators_before.len() as int] == entries[x].0);
                        } else {
                            assert(is_partial_match(points, shape, translator, indices@));
                        }
                    }
                }
            }
            i = j;
        }
        proof {
            if shape.no_duplicates() {
                lemma_no_match_left_out(
                    points,
                    shape,
                    self.min_match_size,
                    entries,
                    translators,
                );
            }
            assert(matches_under(points, shape, self.min_match_size, translators, found));
            assert(are_partial_matches(points, shape, self.min_match_size, found));
        }
    }
}

/// In a sorted list, the entry after a maximal run has a larger difference
/// than the run.
proof fn lemma_later_run_is_larger(entries: Seq<(Point2Di64, usize)>, s: int, e: int)
    requires
        entries_sorted(entries),
        0 <= s < e < entries.len(),
        entries[e - 1].0 == entries[s].0,
        entries[e].0 != entries[s].0,
    ensures
        entries[s].0.lex_lt(entries[e].0),
{
    assert(!entry_lt(entries[e], entries[e - 1]));
}

/// In a sorted list, an entry with the difference of a maximal run lies
/// within the run.
proof fn lemma_query_entry_in_run(entries: Seq<(Point2Di64, usize)>, s: int, e: int, x: int)
    requires
        entries_sorted(entries),
        0 <= s < e <= entries.len(),
        0 <= x < entries.len(),
        entries[e - 1].0 == entries[s].0,
        s > 0 ==> entries[s - 1].0 != entries[s].0,
        e < entries.len() ==> entries[e].0 != entries[s].0,
        entries[x].0 == entries[s].0,
    ensures
        s <= x < e,
{
    if x < s {
        assert(!entry_lt(entries[s], entries[s - 1]));
        if x < s - 1 {
            assert(!entry_lt(entries[s - 1], entries[x]));
        }
    }
    if x >= e {
        assert(!entry_lt(entries[e], entries[e - 1]));
        if x > e {
            assert(!entry_lt(entries[x], entries[e]));
        }
    }
}

/// The indices of a maximal run of entries with one difference are the
/// partial match of the query under that difference.
proof fn lemma_run_is_partial_match(
    points: Seq<Point2Di64>,
    query: Seq<Point2Di64>,
    entries: Seq<(Point2Di64, usize)>,
    s: int,
    e: int,
    indices: Seq<usize>,
)
    requires
        is_query_diff_list(points, query, entries),
        0 <= s < e <= entries.len(),
        forall|x: int| s <= x < e ==> (#[trigger] entries[x]).0 == entries[s].0,
        s > 0 ==> entries[s - 1].0 != entries[s].0,
        e < entries.len() ==> entries[e].0 != entries[s].0,
        indices.len() == e - s,
        forall|k: int| 0 <= k < e - s ==> indices[k] == entries[s + k].1,
    ensures
        is_partial_match(points, query, entries[s].0, indices),
{
    let t = entries[s].0;
    assert forall|k: int| 0 <= k < indices.len() implies #[trigger] indices[k] < points.len()
        && is_reached(query, t, points[indices[k] as int]) by {
        assert(entries[s + k].0 == t);
        assert(entries[s + k].1 < points.len());
    }
    assert forall|a: int, b: int| 0 <= a < b < indices.len() implies #[trigger] indices[a]
        <= #[trigger] indices[b] by {
        assert(!entry_lt(entries[s + b], entries[s + a]));
        assert(entries[s + a].0 == t);
        assert(entries[s + b].0 == t);
    }
    assert(entries[e - 1].0 == t);
    assert forall|j: int|
        0 <= j < points.len() && is_reached(query, t, #[trigger] points[j]) implies has_index(
        indices,
        j,
    ) by {
        let i = choose|i: int| 0 <= i < query.len() && is_diff(points[j], #[trigger] query[i], t);
        assert(has_query_entry(entries, j, query[i], points[j]));
        let x = choose|x: int|
            0 <= x < entries.len() && (#[trigger] entries[x]).1 == j && is_diff(
                points[j],
                query[i],
                entries[x].0,
            );
        assert(entries[x].0 == t);
        lemma_query_entry_in_run(entries, s, e, x);
        assert(indices[x - s] == entries[s + (x - s)].1);
    }
}

/// For a query that holds no point twice, the indices of a run of entries
/// with one difference are strictly ascending.
proof fn lemma_run_holds_no_index_twice(
    points: Seq<Point2Di64>,
    query: Seq<Point2Di64>,
    entries: Seq<(Point2Di64, usize)>,
    s: int,
    e: int,
    indices: Seq<usize>,
)
    requires
        query.no_duplicates(),
        is_query_diff_list(points, query, entries),
        entries.no_duplicates(),
        0 <= s < e <= entries.len(),
        forall|x: int| s <= x < e ==> (#[trigger] entries[x]).0 == entries[s].0,
        indices.len() == e - s,
        forall|k: int| 0 <= k < e - s ==> indices[k] == entries[s + k].1,
    ensures
        indices_ascending(indices),
{
    assert forall|a: int, b: int| 0 <= a < b < indices.len() implies #[trigger] indices[a]
        < #[trigger] indices[b] by {
        assert(!entry_lt(entries[s + b], entries[s + a]));
        assert(entries[s + a].0 == entries[s].0);
        assert(entries[s + b].0 == entries[s].0);
        assert(entries[s + a] != entries[s + b]);
    }
}

/// Two strictly ascending lists of indices that hold the same indices are
/// equally long.
proof fn lemma_same_indices_same_length(a: Seq<usize>, b: Seq<usize>)
    requires
        indices_ascending(a),
        indices_ascending(b),
        forall|j: int| has_index(a, j) <==> has_index(b, j),
    ensures
        a.len() == b.len(),
    decreases a.len(),
{
    if a.len() == 0 {
        if b.len() > 0 {
            assert(has_index(b, b[0] as int));
            let x = choose|x: int| 0 <= x < a.len() && #[trigger] a[x] == b[0] as int;
        }
    } else if b.len() == 0 {
        assert(has_index(a, a[0] as int));
        let x = choose|x: int| 0 <= x < b.len() && #[trigger] b[x] == a[0] as int;
    } else {
        let last_a = a.len() - 1;
        let last_b = b.len() - 1;
        assert(has_index(a, a[last_a] as int));
        let y = choose|y: int| 0 <= y < b.len() && #[trigger] b[y] == a[last_a] as int;
        assert(has_index(b, b[last_b] as int));
        let x = choose|x: int| 0 <= x < a.len() && #[trigger] a[x] == b[last_b] as int;
        if y < last_b {
            assert(b[y] < b[last_b]);
        }
        if x < last_a {
            assert(a[x] < a[last_a]);
        }
        assert(a[last_a] == b[last_b]);
        let shorter_a = a.drop_last();
        let shorter_b = b.drop_last();
        assert forall|j: int| has_index(shorter_a, j) <==> has_index(shorter_b, j) by {
            if has_index(shorter_a, j) {
                let u = choose|u: int| 0 <= u < shorter_a.len() && #[trigger] shorter_a[u] == j;
                assert(a[u] == j);
                assert(a[u] < a[last_a]);
                assert(has_index(a, j));
                let v = choose|v: int| 0 <= v < b.len() && #[trigger] b[v] == j;
                assert(v < last_b);
                assert(shorter_b[v] == j);
            }
            if has_index(shorter_b, j) {
                let v = choose|v: int| 0 <= v < shorter_b.len() && #[trigger] shorter_b[v] == j;
                assert(b[v] == j);
                assert(b[v] < b[last_b]);
                assert(has_index(b, j));
                let u = choose|u: int| 0 <= u < a.len() && #[trigger] a[u] == j;
                assert(u < last_a);
                assert(shorter_a[u] == j);
            }
        }
        assert forall|u: int, v: int| 0 <= u < v < shorter_a.len() implies #[trigger] shorter_a[u]
            < #[trigger] shorter_a[v] by {
            assert(a[u] < a[v]);
        }
        assert forall|u: int, v: int| 0 <= u < v < shorter_b.len() implies #[trigger] shorter_b[u]
            < #[trigger] shorter_b[v] by {
            assert(b[u] < b[v]);
        }
        lemma_same_indices_same_length(shorter_a, shorter_b);
    }
}

/// Once all runs are dealt with, no translator is left out under which the
/// query has a partial match of at least the minimal size.
proof fn lemma_no_match_left_out(
    points: Seq<Point2Di64>,
    query: Seq<Point2Di64>,
    min_match_size: usize,
    entries: Seq<(Point2Di64, usize)>,
    translators: Seq<Point2Di64>,
)
    requires
        is_query_diff_list(points, query, entries),
        runs_done(points, query, min_match_size, entries, entries.len() as int, translators),
    ensures
        forall|t: Point2Di64, indices: Seq<usize>|
            #[trigger] is_partial_match(points, query, t, indices) && indices_ascending(indices)
                && indices.len() > 0 && indices.len() >= min_match_size ==> translators.contains(t),
{
    assert forall|t: Point2Di64, indices: Seq<usize>|
        #[trigger] is_partial_match(points, query, t, indices) && indices_ascending(indices)
            && indices.len() > 0 && indices.len() >= min_match_size implies translators.contains(
        t,
    ) by {
        let j = indices[0] as int;
        assert(is_reached(query, t, points[j]));
        let i = choose|i: int| 0 <= i < query.len() && is_diff(points[j], #[trigger] query[i], t);
        assert(has_query_entry(entries, j, query[i], points[j]));
        let x = choose|x: int|
            0 <= x < entries.len() && (#[trigger] entries[x]).1 == j && is_diff(
                points[j],
                query[i],
                entries[x].0,
            );
        assert(entries[x].0 == t);
        if !translators.contains(t) {
            assert(has_short_match(points, query, min_match_size, entries[x].0));
            let other = choose|other: Seq<usize>|
                #![trigger is_partial_match(points, query, t, other)]
                is_partial_match(points, query, t, other) && indices_ascending(other) && other.len()
                    < min_match_size;
            assert forall|y: int| has_index(indices, y) <==> has_index(other, y) by {
                if has_index(indices, y) {
                    let u = choose|u: int| 0 <= u < indices.len() && #[trigger] indices[u] == y;
                    assert(indices[u] < points.len());
                    assert(is_reached(query, t, points[indices[u] as int]));
                }
                if has_index(other, y) {
                    let u = choose|u: int| 0 <= u < other.len() && #[trigger] other[u] == y;
                    assert(other[u] < points.len());
                    assert(is_reached(query, t, points[other[u] as int]));
                }
            }
            lemma_same_indices_same_length(indices, other);
        }
    }
}

} // verus!
