//! Patterns: ordered sequences of points.

use crate::point_set::point::Point2Di64;
use vstd::prelude::*;

verus! {

/// Every point of `points` can be moved by `translator` without overflow.
pub open spec fn can_translate(points: Seq<Point2Di64>, translator: Point2Di64) -> bool {
    forall|i: int| 0 <= i < points.len() ==> (#[trigger] points[i]).can_add(translator)
}

/// The points of `points`, each moved by `translator`, in the same order.
pub open spec fn translated(points: Seq<Point2Di64>, translator: Point2Di64) -> Seq<Point2Di64> {
    Seq::new(points.len(), |i: int| points[i].plus(translator))
}

/// Every difference between two neighbours in `points` fits a point.
pub open spec fn can_vectorize(points: Seq<Point2Di64>) -> bool {
    forall|i: int| 0 <= i < points.len() - 1 ==> (#[trigger] points[i + 1]).can_sub(points[i])
}

/// The differences between each point of `points` and the one before it.
pub open spec fn vectorized(points: Seq<Point2Di64>) -> Seq<Point2Di64> {
    Seq::new(
        if points.len() == 0 {
            0
        } else {
            (points.len() - 1) as nat
        },
        |i: int| points[i + 1].minus(points[i]),
    )
}

/// Lexicographic order on point sequences: the first position where the two
/// differ decides; where one is a prefix of the other, the shorter one is
/// smaller.
pub open spec fn seq_lex_lt(a: Seq<Point2Di64>, b: Seq<Point2Di64>) -> bool {
    ||| exists|k: int|
        0 <= k < a.len() && k < b.len() && a.subrange(0, k) == b.subrange(0, k)
            && (#[trigger] a[k]).lex_lt(b[k])
    ||| a.len() < b.len() && a == b.subrange(0, a.len() as int)
}

/// Represents a pattern in a point set: points in an order that the creator
/// of the pattern chose and that the pattern keeps.
#[derive(Debug, Clone, PartialEq, Eq, PartialOrd, Ord)]
pub struct Pattern {
    points: Vec<Point2Di64>,
}

impl View for Pattern {
    type V = Seq<Point2Di64>;

    closed spec fn view(&self) -> Seq<Point2Di64> {
        self.points@
    }
}

impl Pattern {
    /// Returns a new pattern. The points are copied to the pattern in the
    /// order they are given.
    pub fn new(points: &Vec<&Point2Di64>) -> (pattern: Pattern)
        ensures
            pattern@.len() == points@.len(),
            forall|i: int| 0 <= i < points@.len() ==> pattern@[i] == *points@[i],
    {
        let mut points_copy: Vec<Point2Di64> = Vec::with_capacity(points.len());
        let mut i: usize = 0;
        while i < points.len()
            invariant
                i <= points.len(),
                points_copy@.len() == i,
                forall|k: int| 0 <= k < i ==> points_copy@[k] == *points@[k],
            decreases points.len() - i,
        {
            points_copy.push(*points[i]);
            i += 1;
        }
        Pattern { points: points_copy }
    }

    /// Returns a pattern that holds the given points in their order.
    pub fn from_points(points: Vec<Point2Di64>) -> (pattern: Pattern)
        ensures
            pattern@ == points@,
    {
        Pattern { points }
    }

    /// Returns the points of this pattern in their order.
    pub fn to_vec(&self) -> (points: Vec<Point2Di64>)
        ensures
            points@ == self@,
    {
        self.copy().points
    }

    /// Returns the number of points in this pattern.
    pub fn len(&self) -> (n: usize)
        ensures
            n == self@.len(),
    {
        self.points.len()
    }

    /// Returns a copy of this pattern.
    pub fn copy(&self) -> (pattern: Pattern)
        ensures
            pattern@ == self@,
    {
        let mut points_copy: Vec<Point2Di64> = Vec::with_capacity(self.points.len());
        let mut i: usize = 0;
        while i < self.points.len()
            invariant
                i <= self.points.len(),
                points_copy@ == self.points@.subrange(0, i as int),
            decreases self.points.len() - i,
        {
            points_copy.push(self.points[i]);
            assert(points_copy@ == self.points@.subrange(0, i + 1));
            i += 1;
        }
        assert(points_copy@ == self.points@);
        Pattern { points: points_copy }
    }

    /// Returns the vectorized representation of this pattern.
    ///
    /// The vectorized version consists of the differences between the
    /// adjacent points in this pattern. Two patterns are translationally
    /// equivalent if, and only if, their vectorized representations are
    /// equal.
    pub fn vectorize(&self) -> (shape: Pattern)
        requires
            can_vectorize(self@),
        ensures
            shape@ == vectorized(self@),
    {
        let length = self.points.len();
        if length == 0 {
            let shape = Pattern { points: Vec::new() };
            assert(shape@ == vectorized(self@));
            return shape;
        }
        let mut diffs: Vec<Point2Di64> = Vec::with_capacity(length - 1);
        let mut i: usize = 0;
        while i < length - 1
            invariant
                length == self.points@.len(),
                length > 0,
                i <= length - 1,
                can_vectorize(self@),
                diffs@.len() == i,
                forall|k: int| 0 <= k < i ==> diffs@[k] == self@[k + 1].minus(self@[k]),
            decreases length - 1 - i,
        {
            assert(self@[i + 1].can_sub(self@[i as int]));
            diffs.push(self.points[i + 1] - self.points[i]);
            i += 1;
        }
        assert(diffs@ == vectorized(self@));
        Pattern { points: diffs }
    }

    /// Returns a translated copy of this pattern.
    pub fn translate(&self, translator: &Point2Di64) -> (moved: Pattern)
        requires
            can_translate(self@, *translator),
        ensures
            moved@ == translated(self@, *translator),
    {
        let mut translated_points: Vec<Point2Di64> = Vec::with_capacity(self.points.len());
        let mut i: usize = 0;
        while i < self.points.len()
            invariant
                i <= self.points.len(),
                can_translate(self@, *translator),
                translated_points@.len() == i,
                forall|k: int| 0 <= k < i ==> translated_points@[k] == self@[k].plus(*translator),
            decreases self.points.len() - i,
        {
            assert(self@[i as int].can_add(*translator));
            translated_points.push(self.points[i] + *translator);
            i += 1;
        }
        assert(translated_points@ == translated(self@, *translator));
        Pattern { points: translated_points }
    }

    /// Returns true if the two patterns hold the same points in the same
    /// order.
    pub fn equals(&self, other: &Pattern) -> (same: bool)
        ensures
            same == (self@ == other@),
    {
        if self.points.len() != other.points.len() {
            return false;
        }
        let mut i: usize = 0;
        while i < self.points.len()
            invariant
                i <= self.points.len(),
                self.points@.len() == other.points@.len(),
                self@.subrange(0, i as int) == other@.subrange(0, i as int),
            decreases self.points.len() - i,
        {
            if self.points[i] != other.points[i] {
                return false;
            }
            assert(self@.subrange(0, i + 1) == self@.subrange(0, i as int).push(self@[i as int]));
            assert(other@.subrange(0, i + 1) == other@.subrange(0, i as int).push(
                other@[i as int],
            ));
            i += 1;
        }
        assert(self@ == self@.subrange(0, i as int));
        assert(other@ == other@.subrange(0, i as int));
        true
    }

    /// Returns true if this pattern comes strictly before `other` in
    /// lexicographic order.
    pub fn precedes(&self, other: &Pattern) -> (before: bool)
        ensures
            before == seq_lex_lt(self@, other@),
    {
        let mut i: usize = 0;
        while i < self.points.len() && i < other.points.len()
            invariant
                i <= self.points.len(),
                i <= other.points.len(),
                self@.subrange(0, i as int) == other@.subrange(0, i as int),
            decreases self.points.len() - i,
        {
            if self.points[i].precedes(&other.points[i]) {
                return true;
            }
            if other.points[i].precedes(&self.points[i]) {
                proof {
                    lemma_first_difference_decides(self@, other@, i as int);
                }
                return false;
            }
            assert(self@.subrange(0, i + 1) == self@.subrange(0, i as int).push(self@[i as int]));
            assert(other@.subrange(0, i + 1) == other@.subrange(0, i as int).push(
                other@[i as int],
            ));
            i += 1;
        }
        proof {
            lemma_prefix_decides(self@, other@, i as int);
        }
        self.points.len() < other.points.len()
    }
}

impl vstd::std_specs::core::IndexSpecImpl<usize> for Pattern {
    open spec fn index_req(&self, index: &usize) -> bool {
        *index < self@.len()
    }
}

impl core::ops::Index<usize> for Pattern {
    type Output = Point2Di64;

    fn index(&self, index: usize) -> (point: &Point2Di64)
        ensures
            *point == self@[index as int],
    {
        &self.points[index]
    }
}

/// Where two sequences agree before position `k` and the second is smaller
/// at `k`, the first is not smaller as a whole.
proof fn lemma_first_difference_decides(a: Seq<Point2Di64>, b: Seq<Point2Di64>, k: int)
    requires
        0 <= k < a.len(),
        k < b.len(),
        a.subrange(0, k) == b.subrange(0, k),
        b[k].lex_lt(a[k]),
    ensures
        !seq_lex_lt(a, b),
{
    assert forall|m: int|
        0 <= m < a.len() && m < b.len() && a.subrange(0, m) == b.subrange(0, m) implies !(
    #[trigger] a[m]).lex_lt(b[m]) by {
        if m < k {
            assert(a.subrange(0, k)[m] == a[m]);
            assert(b.subrange(0, k)[m] == b[m]);
        } else if m > k {
            assert(a.subrange(0, m)[k] == a[k]);
            assert(b.subrange(0, m)[k] == b[k]);
        }
    }
    if a.len() < b.len() && a == b.subrange(0, a.len() as int) {
        assert(b.subrange(0, a.len() as int)[k] == b[k]);
    }
}

/// Where one of two sequences ends at `k` and they agree before it, the
/// lengths decide.
proof fn lemma_prefix_decides(a: Seq<Point2Di64>, b: Seq<Point2Di64>, k: int)
    requires
        0 <= k <= a.len(),
        k <= b.len(),
        k == a.len() || k == b.len(),
        a.subrange(0, k) == b.subrange(0, k),
    ensures
        seq_lex_lt(a, b) == (a.len() < b.len()),
{
    assert forall|m: int|
        0 <= m < a.len() && m < b.len() && a.subrange(0, m) == b.subrange(0, m) implies !(
    #[trigger] a[m]).lex_lt(b[m]) by {
        assert(a.subrange(0, k)[m] == a[m]);
        assert(b.subrange(0, k)[m] == b[m]);
    }
    if a.len() < b.len() {
        assert(a == a.subrange(0, k));
    }
}

/// The shape of a pattern does not change when the pattern is translated:
/// the translated pattern can be vectorized where the pattern can, and the
/// two have the same vectorized representation.
pub proof fn lemma_translation_keeps_shape(points: Seq<Point2Di64>, translator: Point2Di64)
    requires
        can_translate(points, translator),
    ensures
        can_vectorize(points) ==> can_vectorize(translated(points, translator)),
        vectorized(translated(points, translator)) == vectorized(points),
{
    let moved = translated(points, translator);
    if can_vectorize(points) {
        assert forall|i: int| 0 <= i < moved.len() - 1 implies (#[trigger] moved[i + 1]).can_sub(
            moved[i],
        ) by {
            assert(points[i + 1].can_sub(points[i]));
            assert(points[i].can_add(translator));
            assert(points[i + 1].can_add(translator));
        }
    }
    assert forall|i: int| 0 <= i < points.len() - 1 implies moved[i + 1].minus(#[trigger] moved[i])
        == points[i + 1].minus(points[i]) by {
        assert(points[i].can_add(translator));
        assert(points[i + 1].can_add(translator));
    }
    assert(vectorized(moved) =~= vectorized(points));
}

/// The order of shapes: shorter ones first, those of one length in
/// lexicographic order.
pub open spec fn shape_lt(a: Seq<Point2Di64>, b: Seq<Point2Di64>) -> bool {
    a.len() < b.len() || (a.len() == b.len() && seq_lex_lt(a, b))
}

/// Two equally long sequences that differ have a first position at which
/// they differ.
proof fn lemma_first_difference(a: Seq<Point2Di64>, b: Seq<Point2Di64>, k: int) -> (d: int)
    requires
        a.len() == b.len(),
        0 <= k <= a.len(),
        a.subrange(0, k) == b.subrange(0, k),
        a != b,
    ensures
        k <= d < a.len(),
        a.subrange(0, d) == b.subrange(0, d),
        a[d] != b[d],
    decreases a.len() - k,
{
    if k == a.len() {
        assert(a == a.subrange(0, k));
        assert(b == b.subrange(0, k));
        k
    } else if a[k] != b[k] {
        k
    } else {
        assert(a.subrange(0, k + 1) == a.subrange(0, k).push(a[k]));
        assert(b.subrange(0, k + 1) == b.subrange(0, k).push(b[k]));
        lemma_first_difference(a, b, k + 1)
    }
}

/// Of two different shapes, one comes before the other.
pub proof fn lemma_shapes_are_ordered(a: Seq<Point2Di64>, b: Seq<Point2Di64>)
    ensures
        a != b ==> shape_lt(a, b) || shape_lt(b, a),
{
    if a != b && a.len() == b.len() {
        assert(a.subrange(0, 0) == b.subrange(0, 0));
        let d = lemma_first_difference(a, b, 0);
        assert(b.subrange(0, d) == a.subrange(0, d));
        if a[d].lex_lt(b[d]) {
            assert(seq_lex_lt(a, b));
        } else {
            assert(b[d].lex_lt(a[d]));
            assert(seq_lex_lt(b, a));
        }
    }
}

} // verus!

