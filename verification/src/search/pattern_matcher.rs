//! What the pattern matchers have in common.

use crate::point_set::pattern::Pattern;
use crate::point_set::point::Point2Di64;
use crate::point_set::set::PointSet;
use vstd::prelude::*;

verus! {

/// Takes the matches that a matcher finds, one at a time, each as the
/// indices of the matching points in the point set.
pub trait MatchOutput {
    /// The matches taken so far, oldest first.
    spec fn received(&self) -> Seq<Seq<usize>>;

    /// Takes one match.
    fn output(&mut self, indices: Vec<usize>)
        ensures
            final(self).received() == old(self).received().push(indices@),
    ;
}

/// The index lists that the vectors hold.
pub open spec fn match_views(matches: Seq<Vec<usize>>) -> Seq<Seq<usize>> {
    Seq::new(matches.len(), |k: int| matches[k]@)
}

/// An output that keeps every match it takes.
pub struct MatchCollector {
    /// The matches taken so far, oldest first.
    pub matches: Vec<Vec<usize>>,
}

impl MatchOutput for MatchCollector {
    open spec fn received(&self) -> Seq<Seq<usize>> {
        match_views(self.matches@)
    }

    fn output(&mut self, indices: Vec<usize>) {
        self.matches.push(indices);
        assert(match_views(self.matches@) =~= match_views(old(self).matches@).push(indices@));
    }
}

/// All indices of all matches lie within a point set of `count` points.
pub open spec fn matches_within(matches: Seq<Seq<usize>>, count: int) -> bool {
    forall|m: int, k: int|
        0 <= m < matches.len() && 0 <= k < matches[m].len() ==> #[trigger] matches[m][k] < count
}

/// A matcher that finds the occurrences of a query pattern in a point set.
pub trait PatternMatcher {
    /// The queries and point sets on which the matcher can run.
    spec fn accepts(&self, query: Seq<Point2Di64>, points: Seq<Point2Di64>) -> bool;

    /// What the matcher finds for a query in a point set.
    spec fn finds(
        &self,
        query: Seq<Point2Di64>,
        points: Seq<Point2Di64>,
        matches: Seq<Seq<usize>>,
    ) -> bool;

    /// Finds occurrences of the given pattern in the point-set and hands
    /// each one to `on_output`, as a vector of indices in the point-set.
    fn find_indices_with_callback<O: MatchOutput>(
        &self,
        query: &Pattern,
        point_set: &PointSet,
        on_output: &mut O,
    )
        requires
            self.accepts(query@, point_set@),
        ensures
            exists|matches: Seq<Seq<usize>>|
                #![trigger self.finds(query@, point_set@, matches)]
                self.finds(query@, point_set@, matches) && matches_within(
                    matches,
                    point_set@.len() as int,
                ) && final(on_output).received() == old(on_output).received() + matches,
    ;

    /// Finds occurrences of the given pattern in the point-set and returns
    /// them as a vector of vectors of indices. Each vector of indices
    /// corresponds to a single found match.
    fn find_indices(&self, query: &Pattern, point_set: &PointSet) -> (matches: Vec<Vec<usize>>)
        requires
            self.accepts(query@, point_set@),
        ensures
            self.finds(query@, point_set@, match_views(matches@)),
            matches_within(match_views(matches@), point_set@.len() as int),
    ;

    /// Finds occurrences of the given pattern in the point-set and returns
    /// them as a vector of patterns. Each returned pattern corresponds to a
    /// match.
    fn find_occurrences(&self, query: &Pattern, point_set: &PointSet) -> (occurrences: Vec<Pattern>)
        requires
            self.accepts(query@, point_set@),
        ensures
            exists|matches: Seq<Seq<usize>>|
                #![trigger self.finds(query@, point_set@, matches)]
                self.finds(query@, point_set@, matches) && are_patterns_at(
                    point_set@,
                    matches,
                    occurrences@,
                ),
    ;
}

/// The patterns hold the points at the indices of the matches.
pub open spec fn are_patterns_at(
    points: Seq<Point2Di64>,
    matches: Seq<Seq<usize>>,
    patterns: Seq<Pattern>,
) -> bool {
    &&& patterns.len() == matches.len()
    &&& forall|m: int|
        0 <= m < matches.len() ==> (#[trigger] patterns[m])@.len() == matches[m].len()
    &&& forall|m: int, k: int|
        0 <= m < matches.len() && 0 <= k < matches[m].len() ==> (#[trigger] patterns[m]@[k])
            == points[matches[m][k] as int]
}

/// Returns the patterns that hold the points at the indices of the
/// matches.
pub fn patterns_at(point_set: &PointSet, matches: &Vec<Vec<usize>>) -> (occurrences: Vec<Pattern>)
    requires
        matches_within(match_views(matches@), point_set@.len() as int),
    ensures
        are_patterns_at(point_set@, match_views(matches@), occurrences@),
{
    let ghost views = match_views(matches@);
    let mut occurrences: Vec<Pattern> = Vec::with_capacity(matches.len());
    let mut m: usize = 0;
    while m < matches.len()
        invariant
            m <= matches@.len(),
            views == match_views(matches@),
            matches_within(views, point_set@.len() as int),
            occurrences@.len() == m,
            forall|x: int| 0 <= x < m ==> (#[trigger] occurrences@[x])@.len() == views[x].len(),
            forall|x: int, k: int|
                0 <= x < m && 0 <= k < views[x].len() ==> (#[trigger] occurrences@[x]@[k])
                    == point_set@[views[x][k] as int],
        decreases matches@.len() - m,
    {
        proof {
            assert(views[m as int] == matches@[m as int]@);
            assert forall|k: int| 0 <= k < matches@[m as int]@.len() implies matches@[m as int]@[k]
                < point_set@.len() by {
                assert(views[m as int][k] < point_set@.len());
            }
        }
        let occurrence = point_set.get_pattern(&matches[m]);
        let ghost before = occurrences@;
        occurrences.push(occurrence);
        proof {
            assert forall|x: int| 0 <= x < m + 1 implies (#[trigger] occurrences@[x])@.len()
                == views[x].len() by {
                if x < m {
                    assert(occurrences@[x] == before[x]);
                }
            }
            assert forall|x: int, k: int|
                0 <= x < m + 1 && 0 <= k < views[x].len() implies (#[trigger] occurrences@[x]@[k])
                == point_set@[views[x][k] as int] by {
                if x < m {
                    assert(occurrences@[x] == before[x]);
                    assert(before[x]@[k] == point_set@[views[x][k] as int]);
                }
            }
        }
        m += 1;
    }
    occurrences
}

} // verus!
