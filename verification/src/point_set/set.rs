//! Point sets: points in strictly ascending lexicographic order.

use crate::point_set::pattern::can_translate;
use crate::point_set::pattern::translated;
use crate::point_set::pattern::Pattern;
use crate::point_set::point::Point2Di64;
use crate::ranked::sort_ranked;
use crate::ranked::Ranked;
use std::cmp::Ordering;
use vstd::prelude::*;

verus! {

/// Each point is strictly smaller than every later one, so no point occurs
/// twice.
pub open spec fn strictly_ascending(points: Seq<Point2Di64>) -> bool {
    forall|i: int, j: int|
        0 <= i < j < points.len() ==> (#[trigger] points[i]).lex_lt(#[trigger] points[j])
}

/// No point is larger than a later one.
pub open spec fn ascending(points: Seq<Point2Di64>) -> bool {
    forall|i: int, j: int|
        0 <= i < j < points.len() ==> (#[trigger] points[i]).lex_le(#[trigger] points[j])
}

/// `p` is one of the first `n` points of `points`.
pub open spec fn occurs_before(points: Seq<Point2Di64>, n: int, p: Point2Di64) -> bool {
    exists|k: int| 0 <= k < n && k < points.len() && #[trigger] points[k] == p
}

/// `result` holds, in ascending order, the points of the input.
pub open spec fn is_sorted_set_of(result: Seq<Point2Di64>, input: Seq<Point2Di64>) -> bool {
    &&& strictly_ascending(result)
    &&& forall|p: Point2Di64| result.contains(p) <==> input.contains(p)
}

/// `result` holds, in ascending order, the points that are both in `a` and
/// in `b`.
pub open spec fn is_intersection(
    result: Seq<Point2Di64>,
    a: Seq<Point2Di64>,
    b: Seq<Point2Di64>,
) -> bool {
    &&& strictly_ascending(result)
    &&& forall|p: Point2Di64| result.contains(p) <==> (a.contains(p) && b.contains(p))
}

/// `result` holds, in ascending order, the points of `a` that are not in
/// `b`.
pub open spec fn is_difference(
    result: Seq<Point2Di64>,
    a: Seq<Point2Di64>,
    b: Seq<Point2Di64>,
) -> bool {
    &&& strictly_ascending(result)
    &&& forall|p: Point2Di64| result.contains(p) <==> (a.contains(p) && !b.contains(p))
}

/// `result` holds, in ascending order, the points that are in `a` or in
/// `b`.
pub open spec fn is_union(result: Seq<Point2Di64>, a: Seq<Point2Di64>, b: Seq<Point2Di64>) -> bool {
    &&& strictly_ascending(result)
    &&& forall|p: Point2Di64| result.contains(p) <==> (a.contains(p) || b.contains(p))
}

/// The difference between any two of the points fits a point.
pub open spec fn differences_fit(points: Seq<Point2Di64>) -> bool {
    forall|i: int, j: int|
        0 <= i < points.len() && 0 <= j < points.len() ==> (#[trigger] points[j]).can_sub(
            #[trigger] points[i],
        )
}

/// The vector moves `p` onto a point of `points`.
pub open spec fn moved_onto(points: Seq<Point2Di64>, p: Point2Di64, vector: Point2Di64) -> bool {
    exists|k: int|
        0 <= k < points.len() && crate::point_set::point::is_sum(p, vector, #[trigger] points[k])
}

/// The point `q` comes before the point that the vector moves `p` onto.
pub open spec fn sum_precedes(q: Point2Di64, p: Point2Di64, vector: Point2Di64) -> bool {
    q.x < p.x + vector.x || (q.x == p.x + vector.x && q.y < p.y + vector.y)
}

/// Compares two points lexicographically.
pub fn point_order(a: &Point2Di64, b: &Point2Di64) -> (order: Ordering)
    ensures
        order == Ordering::Less <==> a.lex_lt(*b),
        order == Ordering::Greater <==> b.lex_lt(*a),
        order == Ordering::Equal <==> *a == *b,
{
    if a.x < b.x {
        Ordering::Less
    } else if a.x > b.x {
        Ordering::Greater
    } else if a.y < b.y {
        Ordering::Less
    } else if a.y > b.y {
        Ordering::Greater
    } else {
        Ordering::Equal
    }
}

impl Ranked for Point2Di64 {
    open spec fn comes_before(self, other: Point2Di64) -> bool {
        self.lex_lt(other)
    }

    fn rank_order(&self, other: &Point2Di64) -> (order: Ordering) {
        point_order(self, other)
    }

    proof fn lemma_ranking_is_consistent(a: Point2Di64, b: Point2Di64, c: Point2Di64) {
    }
}

/// Sorts the points into ascending order.
pub fn sort_points(points: &mut Vec<Point2Di64>)
    ensures
        final(points)@.to_multiset() == old(points)@.to_multiset(),
        ascending(final(points)@),
{
    sort_ranked(points);
    proof {
        assert forall|i: int, j: int| 0 <= i < j < points@.len() implies (
        #[trigger] points@[i]).lex_le(#[trigger] points@[j]) by {
            assert(!points@[j].comes_before(points@[i]));
        }
    }
}

/// Represents a sorted set of points (i.e. vectors).
/// The points in the set are in lexicographical order, each only once.
#[derive(Debug)]
pub struct PointSet {
    points: Vec<Point2Di64>,
}

impl View for PointSet {
    type V = Seq<Point2Di64>;

    closed spec fn view(&self) -> Seq<Point2Di64> {
        self.points@
    }
}

impl PointSet {
    /// What holds of every point set: its points are strictly ascending.
    #[verifier::type_invariant]
    pub open spec fn well_formed(self) -> bool {
        strictly_ascending(self@)
    }

    /// Returns a point set created from the given points.
    /// The given points do not have to be in any specific order, they are
    /// sorted when the point set is created. Point sets are sets in the
    /// sense that they do not contain duplicates, that is, duplicate points
    /// are removed on creation.
    pub fn new(points: Vec<Point2Di64>) -> (set: PointSet)
        ensures
            is_sorted_set_of(set@, points@),
    {
        let mut sorted = points;
        sort_points(&mut sorted);
        proof {
            lemma_same_multiset_same_points(points@, sorted@);
        }
        let mut distinct: Vec<Point2Di64> = Vec::new();
        let mut i: usize = 0;
        while i < sorted.len()
            invariant
                i <= sorted.len(),
                ascending(sorted@),
                strictly_ascending(distinct@),
                forall|p: Point2Di64| distinct@.contains(p) <==> occurs_before(sorted@, i as int, p),
                i > 0 ==> distinct@.len() > 0 && distinct@.last() == sorted@[i - 1],
            decreases sorted.len() - i,
        {
            let point = sorted[i];
            let ghost before = distinct@;
            if i == 0 || distinct[distinct.len() - 1] != point {
                distinct.push(point);
                proof {
                    assert forall|a: int, b: int| 0 <= a < b < distinct@.len() implies (
                    #[trigger] distinct@[a]).lex_lt(#[trigger] distinct@[b]) by {
                        if b == before.len() {
                            assert(before.contains(before[a]));
                            let k = choose|k: int|
                                0 <= k < i && k < sorted@.len() && #[trigger] sorted@[k]
                                    == before[a];
                            assert(sorted@[k].lex_le(sorted@[i - 1]));
                            assert(sorted@[i - 1].lex_le(sorted@[i as int]));
                        } else {
                            assert(before[a].lex_lt(before[b]));
                        }
                    }
                    assert forall|p: Point2Di64| distinct@.contains(p) <==> occurs_before(
                        sorted@,
                        i + 1,
                        p,
                    ) by {
                        if distinct@.contains(p) {
                            let k = choose|k: int| 0 <= k < distinct@.len() && distinct@[k] == p;
                            if k < before.len() {
                                assert(before[k] == p);
                                assert(before.contains(p));
                                let m = choose|m: int|
                                    0 <= m < i && m < sorted@.len() && #[trigger] sorted@[m] == p;
                                assert(0 <= m < i + 1 && sorted@[m] == p);
                            } else {
                                assert(sorted@[i as int] == p);
                            }
                        }
                        if occurs_before(sorted@, i + 1, p) {
                            let m = choose|m: int|
                                0 <= m < i + 1 && m < sorted@.len() && #[trigger] sorted@[m] == p;
                            if m < i {
                                assert(occurs_before(sorted@, i as int, p));
                                assert(before.contains(p));
                                let k = choose|k: int| 0 <= k < before.len() && before[k] == p;
                                assert(distinct@[k] == p);
                            } else {
                                assert(distinct@[before.len() as int] == p);
                            }
                        }
                    }
                }
            } else {
                proof {
                    assert forall|p: Point2Di64| distinct@.contains(p) <==> occurs_before(
                        sorted@,
                        i + 1,
                        p,
                    ) by {
                        if distinct@.contains(p) {
                            let m = choose|m: int|
                                0 <= m < i && m < sorted@.len() && #[trigger] sorted@[m] == p;
                            assert(0 <= m < i + 1 && sorted@[m] == p);
                        }
                        if occurs_before(sorted@, i + 1, p) {
                            let m = choose|m: int|
                                0 <= m < i + 1 && m < sorted@.len() && #[trigger] sorted@[m] == p;
                            if m < i {
                                assert(occurs_before(sorted@, i as int, p));
                            } else {
                                assert(distinct@[distinct@.len() - 1] == p);
                            }
                        }
                    }
                }
            }
            i += 1;
        }
        proof {
            assert forall|p: Point2Di64| distinct@.contains(p) <==> points@.contains(p) by {
                if sorted@.contains(p) {
                    let m = choose|m: int| 0 <= m < sorted@.len() && sorted@[m] == p;
                    assert(occurs_before(sorted@, i as int, p));
                }
            }
        }
        PointSet { points: distinct }
    }

    /// Returns the number of points in this point set.
    pub fn len(&self) -> (n: usize)
        ensures
            n == self@.len(),
    {
        self.points.len()
    }

    /// Returns true if this point set holds no point.
    pub fn is_empty(&self) -> (empty: bool)
        ensures
            empty == (self@.len() == 0),
    {
        self.points.len() == 0
    }

    /// Returns and gives ownership of the points from this point set.
    pub fn points(self) -> (points: Vec<Point2Di64>)
        ensures
            points@ == self@,
            strictly_ascending(points@),
    {
        proof {
            use_type_invariant(&self);
        }
        self.points
    }
}

impl PointSet {
    /// Returns a copy of this point set.
    pub fn copy(&self) -> (set: PointSet)
        ensures
            set@ == self@,
            strictly_ascending(set@),
    {
        proof {
            use_type_invariant(self);
        }
        let mut points_copy: Vec<Point2Di64> = Vec::with_capacity(self.points.len());
        let mut i: usize = 0;
        while i < self.points.len()
            invariant
                i <= self.points.len(),
                points_copy@.len() == i,
                forall|k: int| 0 <= k < i ==> points_copy@[k] == self.points@[k],
            decreases self.points.len() - i,
        {
            points_copy.push(self.points[i]);
            i += 1;
        }
        assert(points_copy@ == self.points@);
        PointSet { points: points_copy }
    }

    /// Returns the points of this point set in ascending order.
    pub fn to_vec(&self) -> (points: Vec<Point2Di64>)
        ensures
            points@ == self@,
            strictly_ascending(points@),
    {
        self.copy().points()
    }

    /// Returns true if the two point sets hold the same points.
    pub fn equals(&self, other: &PointSet) -> (same: bool)
        ensures
            same == (self@ == other@),
    {
        if self.points.len() != other.points.len() {
            return false;
        }
        let mut i: usize = 0;
        while i < self.points.len()
            invariant
                i <= self.points.len(),
                self.points@.len() == other.points@.len(),
                forall|k: int| 0 <= k < i ==> self.points@[k] == other.points@[k],
            decreases self.points.len() - i,
        {
            if self.points[i] != other.points[i] {
                return false;
            }
            i += 1;
        }
        assert(self.points@ == other.points@);
        true
    }

    /// Returns a pattern consisting of points at the given indices, in the
    /// order of the indices.
    pub fn get_pattern(&self, indices: &Vec<usize>) -> (pattern: Pattern)
        requires
            forall|k: int| 0 <= k < indices@.len() ==> indices@[k] < self@.len(),
        ensures
            pattern@.len() == indices@.len(),
            forall|k: int| 0 <= k < indices@.len() ==> pattern@[k] == self@[indices@[k] as int],
    {
        let mut chosen: Vec<Point2Di64> = Vec::with_capacity(indices.len());
        let mut k: usize = 0;
        while k < indices.len()
            invariant
                k <= indices.len(),
                forall|m: int| 0 <= m < indices@.len() ==> indices@[m] < self.points@.len(),
                chosen@.len() == k,
                forall|m: int| 0 <= m < k ==> chosen@[m] == self.points@[indices@[m] as int],
            decreases indices.len() - k,
        {
            chosen.push(self.points[indices[k]]);
            k += 1;
        }
        Pattern::from_points(chosen)
    }

    /// Returns a point set translated by the given vector.
    pub fn translate(&self, translator: &Point2Di64) -> (moved: PointSet)
        requires
            can_translate(self@, *translator),
        ensures
            moved@ == translated(self@, *translator),
            strictly_ascending(moved@),
    {
        proof {
            use_type_invariant(self);
        }
        let mut translated_points: Vec<Point2Di64> = Vec::with_capacity(self.points.len());
        let mut i: usize = 0;
        while i < self.points.len()
            invariant
                i <= self.points.len(),
                can_translate(self.points@, *translator),
                translated_points@.len() == i,
                forall|k: int|
                    0 <= k < i ==> translated_points@[k] == self.points@[k].plus(*translator),
            decreases self.points.len() - i,
        {
            assert(self.points@[i as int].can_add(*translator));
            translated_points.push(self.points[i] + *translator);
            i += 1;
        }
        proof {
            assert(translated_points@ == translated(self.points@, *translator));
            lemma_translation_keeps_ascending(self.points@, *translator);
        }
        PointSet { points: translated_points }
    }

    /// Returns the intersection of this point set with the given point set.
    pub fn intersect(&self, other: &PointSet) -> (common: PointSet)
        ensures
            is_intersection(common@, self@, other@),
    {
        proof {
            use_type_invariant(self);
            use_type_invariant(other);
        }
        let ghost a = self.points@;
        let ghost b = other.points@;
        let mut common_points: Vec<Point2Di64> = Vec::new();
        let mut i: usize = 0;
        let mut j: usize = 0;
        while i < self.points.len() && j < other.points.len()
            invariant
                a == self.points@,
                b == other.points@,
                i <= a.len(),
                j <= b.len(),
                strictly_ascending(a),
                strictly_ascending(b),
                strictly_ascending(common_points@),
                forall|p: Point2Di64| #[trigger]
                    common_points@.contains(p) ==> occurs_before(a, i as int, p) && occurs_before(
                        b,
                        j as int,
                        p,
                    ),
                forall|p: Point2Di64| #[trigger]
                    occurs_before(a, i as int, p) && b.contains(p) ==> common_points@.contains(p),
                forall|p: Point2Di64| #[trigger]
                    occurs_before(b, j as int, p) && a.contains(p) ==> common_points@.contains(p),
            decreases a.len() - i + b.len() - j,
        {
            let pa = self.points[i];
            let pb = other.points[j];
            let ghost before = common_points@;
            if pa == pb {
                common_points.push(pa);
                proof {
                    lemma_push_keeps_ascending(before, a, i as int);
                    lemma_push_contains(before, pa);
                    lemma_occurs_before_step(a, i as int);
                    lemma_occurs_before_step(b, j as int);
                    assert(a.contains(a[i as int]));
                    assert(b.contains(b[j as int]));
                }
                i += 1;
                j += 1;
            } else if pb.precedes(&pa) {
                proof {
                    lemma_occurs_before_step(b, j as int);
                    lemma_absent_when_passed(a, i as int, pb);
                    assert(b.contains(b[j as int]));
                }
                j += 1;
            } else {
                proof {
                    lemma_occurs_before_step(a, i as int);
                    lemma_absent_when_passed(b, j as int, pa);
                    assert(a.contains(a[i as int]));
                }
                i += 1;
            }
        }
        proof {
            lemma_occurs_before_all(a);
            lemma_occurs_before_all(b);
            assert forall|p: Point2Di64| a.contains(p) && b.contains(p) implies common_points@.contains(
                p,
            ) by {
                if i == a.len() {
                    assert(occurs_before(a, i as int, p));
                } else {
                    assert(occurs_before(b, j as int, p));
                }
            }
        }
        PointSet { points: common_points }
    }

    /// Returns the difference of this point set and the other point set
    /// (all points in this that are not present in other).
    pub fn difference(&self, other: &PointSet) -> (rest: PointSet)
        ensures
            is_difference(rest@, self@, other@),
    {
        proof {
            use_type_invariant(self);
            use_type_invariant(other);
        }
        let ghost a = self.points@;
        let ghost b = other.points@;
        let mut diff: Vec<Point2Di64> = Vec::new();
        let mut i: usize = 0;
        let mut j: usize = 0;
        while i < self.points.len()
            invariant
                a == self.points@,
                b == other.points@,
                i <= a.len(),
                j <= b.len(),
                strictly_ascending(a),
                strictly_ascending(b),
                strictly_ascending(diff@),
                forall|p: Point2Di64| #[trigger]
                    diff@.contains(p) ==> occurs_before(a, i as int, p) && !b.contains(p),
                forall|p: Point2Di64|
                    occurs_before(a, i as int, p) && !b.contains(p) ==> diff@.contains(p),
                forall|p: Point2Di64|
                    i < a.len() && occurs_before(b, j as int, p) ==> p.lex_lt(a[i as int]),
            decreases a.len() - i + b.len() - j,
        {
            let pa = self.points[i];
            let ghost before = diff@;
            if j < other.points.len() && other.points[j] == pa {
                proof {
                    lemma_occurs_before_step(a, i as int);
                    lemma_occurs_before_step(b, j as int);
                    assert(b.contains(pa));
                }
                i += 1;
                j += 1;
            } else if j < other.points.len() && other.points[j].precedes(&pa) {
                proof {
                    lemma_occurs_before_step(b, j as int);
                }
                j += 1;
            } else {
                diff.push(pa);
                proof {
                    lemma_push_keeps_ascending(before, a, i as int);
                    lemma_push_contains(before, pa);
                    lemma_occurs_before_step(a, i as int);
                    if b.contains(pa) {
                        let m = choose|m: int| 0 <= m < b.len() && b[m] == pa;
                        if m < j {
                            assert(occurs_before(b, j as int, pa));
                        } else {
                            assert(b[j as int].lex_le(b[m]));
                        }
                    }
                    assert forall|p: Point2Di64|
                        i + 1 < a.len() && occurs_before(b, j as int, p) implies p.lex_lt(
                        a[i + 1],
                    ) by {
                        assert(a[i as int].lex_lt(a[i + 1]));
                    }
                }
                i += 1;
            }
        }
        proof {
            lemma_occurs_before_all(a);
        }
        PointSet { points: diff }
    }

    /// Returns the union of this point set and the other point set (all
    /// points that are present in either).
    pub fn union(&self, other: &PointSet) -> (all: PointSet)
        ensures
            is_union(all@, self@, other@),
    {
        proof {
            use_type_invariant(self);
            use_type_invariant(other);
        }
        let ghost a = self.points@;
        let ghost b = other.points@;
        let mut merged: Vec<Point2Di64> = Vec::new();
        let mut i: usize = 0;
        let mut j: usize = 0;
        while i < self.points.len() || j < other.points.len()
            invariant
                a == self.points@,
                b == other.points@,
                i <= a.len(),
                j <= b.len(),
                strictly_ascending(a),
                strictly_ascending(b),
                strictly_ascending(merged@),
                forall|p: Point2Di64| #[trigger]
                    merged@.contains(p) <==> occurs_before(a, i as int, p) || occurs_before(
                        b,
                        j as int,
                        p,
                    ),
                forall|p: Point2Di64|
                    i < a.len() && #[trigger] merged@.contains(p) ==> p.lex_lt(a[i as int]),
                forall|p: Point2Di64|
                    j < b.len() && #[trigger] merged@.contains(p) ==> p.lex_lt(b[j as int]),
            decreases a.len() - i + b.len() - j,
        {
            let ghost before = merged@;
            let take_a = j >= other.points.len() || (i < self.points.len() && !other.points[j].precedes(
                &self.points[i],
            ));
            let take_b = i >= self.points.len() || (j < other.points.len() && !self.points[i].precedes(
                &other.points[j],
            ));
            let next = if take_a {
                self.points[i]
            } else {
                other.points[j]
            };
            merged.push(next);
            proof {
                assert forall|x: int, y: int| 0 <= x < y < merged@.len() implies (
                #[trigger] merged@[x]).lex_lt(#[trigger] merged@[y]) by {
                    if y == before.len() {
                        assert(before.contains(before[x]));
                    } else {
                        assert(before[x].lex_lt(before[y]));
                    }
                }
                lemma_push_contains(before, next);
                if take_a {
                    lemma_occurs_before_step(a, i as int);
                }
                if take_b {
                    lemma_occurs_before_step(b, j as int);
                }
                assert forall|p: Point2Di64|
                    take_a && i + 1 < a.len() && #[trigger] merged@.contains(p) implies p.lex_lt(
                    a[i + 1],
                ) by {
                    assert(a[i as int].lex_lt(a[i + 1]));
                }
                assert forall|p: Point2Di64|
                    take_b && j + 1 < b.len() && #[trigger] merged@.contains(p) implies p.lex_lt(
                    b[j + 1],
                ) by {
                    assert(b[j as int].lex_lt(b[j + 1]));
                }
            }
            if take_a {
                i += 1;
            }
            if take_b {
                j += 1;
            }
        }
        proof {
            lemma_occurs_before_all(a);
            lemma_occurs_before_all(b);
        }
        PointSet { points: merged }
    }

    /// Returns true if the difference between any two points of this set
    /// fits a point, which the discovery algorithms ask for.
    pub fn has_fitting_differences(&self) -> (fitting: bool)
        ensures
            fitting == differences_fit(self@),
    {
        let ghost points = self.points@;
        if self.points.len() == 0 {
            return true;
        }
        let first = self.points[0];
        let mut lower_x = first.x;
        let mut upper_x = first.x;
        let mut lower_y = first.y;
        let mut upper_y = first.y;
        let ghost mut at_lower_x: int = 0;
        let ghost mut at_upper_x: int = 0;
        let ghost mut at_lower_y: int = 0;
        let ghost mut at_upper_y: int = 0;
        let mut i: usize = 1;
        while i < self.points.len()
            invariant
                1 <= i <= points.len(),
                points == self.points@,
                0 <= at_lower_x < i && points[at_lower_x].x == lower_x,
                0 <= at_upper_x < i && points[at_upper_x].x == upper_x,
                0 <= at_lower_y < i && points[at_lower_y].y == lower_y,
                0 <= at_upper_y < i && points[at_upper_y].y == upper_y,
                forall|k: int|
                    0 <= k < i ==> lower_x <= (#[trigger] points[k]).x <= upper_x && lower_y
                        <= points[k].y <= upper_y,
            decreases points.len() - i,
        {
            let point = self.points[i];
            if point.x < lower_x {
                lower_x = point.x;
                proof {
                    at_lower_x = i as int;
                }
            }
            if point.x > upper_x {
                upper_x = point.x;
                proof {
                    at_upper_x = i as int;
                }
            }
            if point.y < lower_y {
                lower_y = point.y;
                proof {
                    at_lower_y = i as int;
                }
            }
            if point.y > upper_y {
                upper_y = point.y;
                proof {
                    at_upper_y = i as int;
                }
            }
            i += 1;
        }
        let fitting = upper_x as i128 - lower_x as i128 <= i64::MAX as i128 && upper_y as i128
            - lower_y as i128 <= i64::MAX as i128;
        proof {
            if fitting {
                assert forall|a: int, b: int|
                    0 <= a < points.len() && 0 <= b < points.len() implies (
                #[trigger] points[b]).can_sub(#[trigger] points[a]) by {
                    assert(lower_x <= points[a].x <= upper_x);
                    assert(lower_x <= points[b].x <= upper_x);
                }
            } else if upper_x - lower_x > i64::MAX {
                assert(!points[at_upper_x].can_sub(points[at_lower_x]));
            } else {
                assert(!points[at_upper_y].can_sub(points[at_lower_y]));
            }
        }
        fitting
    }

    /// Returns the points of this set that the given vector moves onto a
    /// point of this set. Where the set can be translated by the opposite
    /// vector, this is the intersection of the set with its translated
    /// copy.
    pub fn translatable_points(&self, translator: &Point2Di64) -> (movable: PointSet)
        ensures
            strictly_ascending(movable@),
            forall|p: Point2Di64|
                movable@.contains(p) <==> (self@.contains(p) && exists|k: int|
                    0 <= k < self@.len() && crate::point_set::point::is_sum(
                        p,
                        *translator,
                        #[trigger] self@[k],
                    )),
    {
        proof {
            use_type_invariant(self);
        }
        let ghost a = self.points@;
        let t = *translator;
        let mut movable: Vec<Point2Di64> = Vec::new();
        let mut i: usize = 0;
        let mut j: usize = 0;
        while i < self.points.len() && j < self.points.len()
            invariant
                a == self.points@,
                t == *translator,
                i <= a.len(),
                j <= a.len(),
                strictly_ascending(a),
                strictly_ascending(movable@),
                forall|p: Point2Di64| #[trigger]
                    movable@.contains(p) ==> occurs_before(a, i as int, p) && moved_onto(a, p, t),
                forall|p: Point2Di64| #[trigger]
                    occurs_before(a, i as int, p) && moved_onto(a, p, t) ==> movable@.contains(p),
                forall|k: int|
                    0 <= k < j && i < a.len() ==> sum_precedes(
                        #[trigger] a[k],
                        a[i as int],
                        t,
                    ),
            decreases a.len() - i + a.len() - j,
        {
            let p = self.points[i];
            let q = self.points[j];
            let sum_x = p.x as i128 + t.x as i128;
            let sum_y = p.y as i128 + t.y as i128;
            let ghost before = movable@;
            if q.x as i128 == sum_x && q.y as i128 == sum_y {
                movable.push(p);
                proof {
                    lemma_push_keeps_ascending(before, a, i as int);
                    lemma_push_contains(before, p);
                    lemma_occurs_before_step(a, i as int);
                    assert(crate::point_set::point::is_sum(p, t, a[j as int]));
                    assert(moved_onto(a, p, t));
                    if i + 1 < a.len() {
                        assert(a[i as int].lex_lt(a[i + 1]));
                    }
                }
                i += 1;
                j += 1;
            } else if (q.x as i128) < sum_x || (q.x as i128 == sum_x && (q.y as i128) < sum_y) {
                j += 1;
            } else {
                proof {
                    lemma_occurs_before_step(a, i as int);
                    if moved_onto(a, p, t) {
                        let k = choose|k: int|
                            0 <= k < a.len() && crate::point_set::point::is_sum(p, t, #[trigger] a[k]);
                        if k < j {
                            assert(sum_precedes(a[k], a[i as int], t));
                        } else if k > j {
                            assert(a[j as int].lex_lt(a[k]));
                        }
                    }
                    if i + 1 < a.len() {
                        assert(a[i as int].lex_lt(a[i + 1]));
                    }
                }
                i += 1;
            }
        }
        proof {
            lemma_occurs_before_all(a);
            assert forall|p: Point2Di64| a.contains(p) && moved_onto(a, p, t) implies movable@.contains(
                p,
            ) by {
                if i < a.len() {
                    let x = choose|x: int| 0 <= x < a.len() && a[x] == p;
                    if x >= i {
                        let k = choose|k: int|
                            0 <= k < a.len() && crate::point_set::point::is_sum(p, t, #[trigger] a[k]);
                        assert(sum_precedes(a[k], a[i as int], t));
                        if x > i {
                            assert(a[i as int].lex_lt(a[x]));
                        }
                    } else {
                        assert(occurs_before(a, i as int, p));
                    }
                } else {
                    assert(occurs_before(a, i as int, p));
                }
            }
            assert forall|p: Point2Di64|
                movable@.contains(p) <==> (a.contains(p) && exists|k: int|
                    0 <= k < a.len() && crate::point_set::point::is_sum(p, t, #[trigger] a[k])) by {
                if movable@.contains(p) {
                    assert(moved_onto(a, p, t));
                }
                if a.contains(p) && exists|k: int|
                    0 <= k < a.len() && crate::point_set::point::is_sum(p, t, #[trigger] a[k]) {
                    assert(moved_onto(a, p, t));
                }
            }
        }
        PointSet { points: movable }
    }

    /// Searches this point set for the given point. Returns the index of the
    /// point where it is found, and otherwise, as the error, the index at
    /// which the point could be inserted to keep the set in order.
    pub fn find_index(&self, point: &Point2Di64) -> (found: Result<usize, usize>)
        ensures
            match found {
                Ok(index) => index < self@.len() && self@[index as int] == *point,
                Err(index) => {
                    &&& !self@.contains(*point)
                    &&& index <= self@.len()
                    &&& forall|k: int| 0 <= k < index ==> (#[trigger] self@[k]).lex_lt(*point)
                    &&& forall|k: int|
                        index <= k < self@.len() ==> point.lex_lt(#[trigger] self@[k])
                },
            },
    {
        proof {
            use_type_invariant(self);
        }
        let mut low: usize = 0;
        let mut high: usize = self.points.len();
        while low < high
            invariant
                low <= high <= self.points@.len(),
                strictly_ascending(self.points@),
                forall|k: int| 0 <= k < low ==> (#[trigger] self.points@[k]).lex_lt(*point),
                forall|k: int|
                    high <= k < self.points@.len() ==> point.lex_lt(#[trigger] self.points@[k]),
            decreases high - low,
        {
            let middle = low + (high - low) / 2;
            let candidate = self.points[middle];
            if candidate == *point {
                return Ok(middle);
            } else if candidate.precedes(point) {
                assert forall|k: int| 0 <= k < middle + 1 implies (
                #[trigger] self.points@[k]).lex_lt(*point) by {
                    if k < middle {
                        assert(self.points@[k].lex_lt(self.points@[middle as int]));
                    }
                }
                low = middle + 1;
            } else {
                assert forall|k: int| middle <= k < self.points@.len() implies point.lex_lt(
                    #[trigger] self.points@[k],
                ) by {
                    if k > middle {
                        assert(self.points@[middle as int].lex_lt(self.points@[k]));
                    }
                }
                high = middle;
            }
        }
        Err(low)
    }
}

impl vstd::std_specs::core::IndexSpecImpl<usize> for PointSet {
    open spec fn index_req(&self, index: &usize) -> bool {
        *index < self@.len()
    }
}

impl std::ops::Index<usize> for PointSet {
    type Output = Point2Di64;

    fn index(&self, index: usize) -> (point: &Point2Di64)
        ensures
            *point == self@[index as int],
    {
        &self.points[index]
    }
}

/// Moving every point of an ascending sequence by one vector leaves the
/// sequence ascending.
pub proof fn lemma_translation_keeps_ascending(points: Seq<Point2Di64>, translator: Point2Di64)
    requires
        strictly_ascending(points),
        can_translate(points, translator),
    ensures
        strictly_ascending(translated(points, translator)),
{
    let moved = translated(points, translator);
    assert forall|i: int, j: int| 0 <= i < j < moved.len() implies (#[trigger] moved[i]).lex_lt(
        #[trigger] moved[j],
    ) by {
        assert(points[i].lex_lt(points[j]));
        assert(points[i].can_add(translator));
        assert(points[j].can_add(translator));
    }
}

/// A point of `source` that comes after all points taken from before it can
/// be appended to what was taken.
pub proof fn lemma_push_keeps_ascending(taken: Seq<Point2Di64>, source: Seq<Point2Di64>, i: int)
    requires
        0 <= i < source.len(),
        strictly_ascending(source),
        strictly_ascending(taken),
        forall|p: Point2Di64| #[trigger] taken.contains(p) ==> occurs_before(source, i, p),
    ensures
        strictly_ascending(taken.push(source[i])),
{
    let longer = taken.push(source[i]);
    assert forall|x: int, y: int| 0 <= x < y < longer.len() implies (#[trigger] longer[x]).lex_lt(
        #[trigger] longer[y],
    ) by {
        if y == taken.len() {
            assert(taken.contains(taken[x]));
            let k = choose|k: int| 0 <= k < i && k < source.len() && #[trigger] source[k] == taken[x];
            assert(source[k].lex_lt(source[i]));
        } else {
            assert(taken[x].lex_lt(taken[y]));
        }
    }
}

/// What a sequence contains after a push.
pub proof fn lemma_push_contains(s: Seq<Point2Di64>, added: Point2Di64)
    ensures
        forall|p: Point2Di64| #[trigger] s.push(added).contains(p) <==> s.contains(p) || p == added,
{
    let longer = s.push(added);
    assert forall|p: Point2Di64| #[trigger] longer.contains(p) <==> s.contains(p) || p == added by {
        if longer.contains(p) {
            let k = choose|k: int| 0 <= k < longer.len() && longer[k] == p;
            if k < s.len() {
                assert(s[k] == p);
            }
        }
        if s.contains(p) {
            let k = choose|k: int| 0 <= k < s.len() && s[k] == p;
            assert(longer[k] == p);
        }
        if p == added {
            assert(longer[s.len() as int] == p);
        }
    }
}

/// The points before position `i + 1` are those before `i` and the one at
/// `i`.
pub proof fn lemma_occurs_before_step(s: Seq<Point2Di64>, i: int)
    requires
        0 <= i < s.len(),
    ensures
        forall|p: Point2Di64| #[trigger]
            occurs_before(s, i + 1, p) <==> occurs_before(s, i, p) || p == s[i],
{
    assert forall|p: Point2Di64| #[trigger]
        occurs_before(s, i + 1, p) <==> occurs_before(s, i, p) || p == s[i] by {
        if occurs_before(s, i + 1, p) {
            let k = choose|k: int| 0 <= k < i + 1 && k < s.len() && #[trigger] s[k] == p;
            if k < i {
                assert(occurs_before(s, i, p));
            }
        }
        if occurs_before(s, i, p) {
            let k = choose|k: int| 0 <= k < i && k < s.len() && #[trigger] s[k] == p;
            assert(0 <= k < i + 1 && s[k] == p);
        }
        if p == s[i] {
            assert(0 <= i < i + 1 && s[i] == p);
        }
    }
}

/// The points before the end of a sequence are the points it contains.
pub proof fn lemma_occurs_before_all(s: Seq<Point2Di64>)
    ensures
        forall|p: Point2Di64| #[trigger] occurs_before(s, s.len() as int, p) <==> s.contains(p),
        forall|p: Point2Di64, n: int| #[trigger] occurs_before(s, n, p) ==> s.contains(p),
{
    assert forall|p: Point2Di64| #[trigger] occurs_before(s, s.len() as int, p) <==> s.contains(
        p,
    ) by {
        if s.contains(p) {
            let k = choose|k: int| 0 <= k < s.len() && s[k] == p;
            assert(0 <= k < s.len() && s[k] == p);
        }
    }
}

/// A point smaller than the one at position `i` of an ascending sequence
/// occurs in it before `i` or not at all.
pub proof fn lemma_absent_when_passed(s: Seq<Point2Di64>, i: int, p: Point2Di64)
    requires
        0 <= i < s.len(),
        strictly_ascending(s),
        p.lex_lt(s[i]),
    ensures
        s.contains(p) ==> occurs_before(s, i, p),
{
    if s.contains(p) {
        let m = choose|m: int| 0 <= m < s.len() && s[m] == p;
        if m >= i {
            if m > i {
                assert(s[i].lex_lt(s[m]));
            }
        }
    }
}

/// Two strictly ascending sequences that hold the same points are equal.
pub proof fn lemma_ascending_unique(a: Seq<Point2Di64>, b: Seq<Point2Di64>)
    requires
        strictly_ascending(a),
        strictly_ascending(b),
        forall|p: Point2Di64| a.contains(p) <==> b.contains(p),
    ensures
        a == b,
    decreases a.len(),
{
    if a.len() == 0 {
        if b.len() > 0 {
            assert(b.contains(b[0]));
        }
        assert(a =~= b);
    } else {
        assert(a.contains(a[0]));
        assert(b.contains(a[0]));
        let k = choose|k: int| 0 <= k < b.len() && b[k] == a[0];
        assert(b.contains(b[0]));
        let m = choose|m: int| 0 <= m < a.len() && a[m] == b[0];
        if m > 0 {
            assert(a[0].lex_lt(a[m]));
        }
        if k > 0 {
            assert(b[0].lex_lt(b[k]));
        }
        assert(a[0] == b[0]);
        let at = a.drop_first();
        let bt = b.drop_first();
        assert forall|p: Point2Di64| at.contains(p) <==> bt.contains(p) by {
            if at.contains(p) {
                let x = choose|x: int| 0 <= x < at.len() && at[x] == p;
                assert(a[x + 1] == p);
                assert(a[0].lex_lt(a[x + 1]));
                assert(a.contains(p));
                let y = choose|y: int| 0 <= y < b.len() && b[y] == p;
                assert(y > 0);
                assert(bt[y - 1] == p);
            }
            if bt.contains(p) {
                let y = choose|y: int| 0 <= y < bt.len() && bt[y] == p;
                assert(b[y + 1] == p);
                assert(b[0].lex_lt(b[y + 1]));
                assert(b.contains(p));
                let x = choose|x: int| 0 <= x < a.len() && a[x] == p;
                assert(x > 0);
                assert(at[x - 1] == p);
            }
        }
        assert forall|i: int, j: int| 0 <= i < j < at.len() implies (#[trigger] at[i]).lex_lt(
            #[trigger] at[j],
        ) by {
            assert(a[i + 1].lex_lt(a[j + 1]));
        }
        assert forall|i: int, j: int| 0 <= i < j < bt.len() implies (#[trigger] bt[i]).lex_lt(
            #[trigger] bt[j],
        ) by {
            assert(b[i + 1].lex_lt(b[j + 1]));
        }
        lemma_ascending_unique(at, bt);
        assert(a =~= seq![a[0]] + at);
        assert(b =~= seq![b[0]] + bt);
    }
}

/// Intersection does not depend on the order of its operands.
pub proof fn lemma_intersect_commutes(
    a: Seq<Point2Di64>,
    b: Seq<Point2Di64>,
    a_with_b: Seq<Point2Di64>,
    b_with_a: Seq<Point2Di64>,
)
    requires
        is_intersection(a_with_b, a, b),
        is_intersection(b_with_a, b, a),
    ensures
        a_with_b == b_with_a,
{
    lemma_ascending_unique(a_with_b, b_with_a);
}

/// The difference of a point set and itself is empty.
pub proof fn lemma_difference_with_self_is_empty(a: Seq<Point2Di64>, rest: Seq<Point2Di64>)
    requires
        is_difference(rest, a, a),
    ensures
        rest.len() == 0,
{
    if rest.len() > 0 {
        assert(rest.contains(rest[0]));
    }
}

/// The difference of two point sets holds no point of the second.
pub proof fn lemma_difference_excludes_second(
    a: Seq<Point2Di64>,
    b: Seq<Point2Di64>,
    rest: Seq<Point2Di64>,
)
    requires
        is_difference(rest, a, b),
    ensures
        forall|k: int| 0 <= k < rest.len() ==> !b.contains(#[trigger] rest[k]),
        forall|k: int| 0 <= k < rest.len() ==> a.contains(#[trigger] rest[k]),
{
    assert forall|k: int| 0 <= k < rest.len() implies !b.contains(#[trigger] rest[k])
        && a.contains(rest[k]) by {
        assert(rest.contains(rest[k]));
    }
}

/// Two sequences that hold the same elements equally often hold the same
/// points and are equally long.
pub proof fn lemma_same_multiset_same_points(a: Seq<Point2Di64>, b: Seq<Point2Di64>)
    requires
        a.to_multiset() == b.to_multiset(),
    ensures
        a.len() == b.len(),
        forall|p: Point2Di64| a.contains(p) <==> b.contains(p),
{
    vstd::seq_lib::to_multiset_len(a);
    vstd::seq_lib::to_multiset_len(b);
    assert forall|p: Point2Di64| a.contains(p) <==> b.contains(p) by {
        vstd::seq_lib::to_multiset_contains(a, p);
        vstd::seq_lib::to_multiset_contains(b, p);
    }
}

} // verus!
