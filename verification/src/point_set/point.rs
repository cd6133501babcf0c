//! Two-dimensional integer points, which double as translation vectors.

use vstd::prelude::*;
use vstd::std_specs::ops::AddSpecImpl;
use vstd::std_specs::ops::MulSpecImpl;
use vstd::std_specs::ops::SubSpecImpl;

verus! {

/// A point, or a vector between two points, with integer components.
///
/// Points are ordered lexicographically: by `x` first, then by `y`.
#[derive(Debug, Clone, Copy, PartialEq, Eq, Structural, PartialOrd, Ord, Hash)]
pub struct Point2Di64 {
    /// The first component; for music data, the onset time.
    pub x: i64,
    /// The second component; for music data, the pitch.
    pub y: i64,
}

/// The short name of the point with integer components.
pub type Point2dI = Point2Di64;

/// What all points can do, beside being added, subtracted, scaled, compared
/// and copied.
pub trait Point: Sized + Copy {
    /// The components of the point, the first one first.
    spec fn components(self) -> Seq<int>;

    /// Returns true if this point is zero (all components are zero).
    fn is_zero(&self) -> (zero: bool)
        ensures
            zero == (forall|i: int|
                0 <= i < self.components().len() ==> #[trigger] self.components()[i] == 0),
    ;

    /// Returns the component of this point at the given index, or nothing
    /// if the index is out of bounds.
    fn component(&self, index: usize) -> (value: Option<i64>)
        ensures
            index < self.components().len() ==> value.is_some() && value.unwrap()
                == self.components()[index as int],
            index >= self.components().len() ==> value.is_none(),
    ;

    /// Returns the dimensionality of this point.
    fn dimensionality(&self) -> (dim: usize)
        ensures
            dim == self.components().len(),
    ;
}

impl Point for Point2Di64 {
    open spec fn components(self) -> Seq<int> {
        seq![self.x as int, self.y as int]
    }

    fn is_zero(&self) -> (zero: bool)
        ensures
            zero == (*self == Self::zero()),
    {
        proof {
            let c = self.components();
            assert(c.len() == 2);
            assert(c[0] == self.x && c[1] == self.y);
        }
        self.x == 0 && self.y == 0
    }

    fn component(&self, index: usize) -> (value: Option<i64>)
        ensures
            value == self.spec_component(index),
    {
        proof {
            let c = self.components();
            assert(c.len() == 2);
            assert(c[0] == self.x && c[1] == self.y);
        }
        if index == 0 {
            Some(self.x)
        } else if index == 1 {
            Some(self.y)
        } else {
            None
        }
    }

    fn dimensionality(&self) -> (dim: usize)
        ensures
            dim == 2,
    {
        proof {
            assert(self.components().len() == 2);
        }
        2
    }
}

/// `sum` is `point` moved by `vector`, computed without any wrap-around.
pub open spec fn is_sum(point: Point2Di64, vector: Point2Di64, sum: Point2Di64) -> bool {
    &&& sum.x == point.x + vector.x
    &&& sum.y == point.y + vector.y
}

/// `diff` is the vector that leads from `from` to `to`.
pub open spec fn is_diff(to: Point2Di64, from: Point2Di64, diff: Point2Di64) -> bool {
    is_sum(from, diff, to)
}

impl Point2Di64 {
    /// The zero vector.
    pub open spec fn zero() -> Point2Di64 {
        Point2Di64 { x: 0, y: 0 }
    }

    /// Strict lexicographic order.
    pub open spec fn lex_lt(self, other: Point2Di64) -> bool {
        self.x < other.x || (self.x == other.x && self.y < other.y)
    }

    /// Lexicographic order.
    pub open spec fn lex_le(self, other: Point2Di64) -> bool {
        self.lex_lt(other) || self == other
    }

    /// Both components of `self + rhs` fit the component type.
    pub open spec fn can_add(self, rhs: Point2Di64) -> bool {
        &&& i64::MIN <= self.x + rhs.x <= i64::MAX
        &&& i64::MIN <= self.y + rhs.y <= i64::MAX
    }

    /// Both components of `self - rhs` fit the component type.
    pub open spec fn can_sub(self, rhs: Point2Di64) -> bool {
        &&& i64::MIN <= self.x - rhs.x <= i64::MAX
        &&& i64::MIN <= self.y - rhs.y <= i64::MAX
    }

    /// Both components of `factor * self` fit the component type.
    pub open spec fn can_scale(self, factor: i64) -> bool {
        &&& i64::MIN <= self.x * factor <= i64::MAX
        &&& i64::MIN <= self.y * factor <= i64::MAX
    }

    /// The component-wise sum, where it fits.
    pub open spec fn plus(self, rhs: Point2Di64) -> Point2Di64 {
        Point2Di64 { x: (self.x + rhs.x) as i64, y: (self.y + rhs.y) as i64 }
    }

    /// The component-wise difference, where it fits.
    pub open spec fn minus(self, rhs: Point2Di64) -> Point2Di64 {
        Point2Di64 { x: (self.x - rhs.x) as i64, y: (self.y - rhs.y) as i64 }
    }

    /// The point with both components multiplied by `factor`, where it fits.
    pub open spec fn scaled(self, factor: i64) -> Point2Di64 {
        Point2Di64 { x: (self.x * factor) as i64, y: (self.y * factor) as i64 }
    }

    /// The component at `index`, if the point has one.
    pub open spec fn spec_component(self, index: usize) -> Option<i64> {
        if index == 0 {
            Some(self.x)
        } else if index == 1 {
            Some(self.y)
        } else {
            None
        }
    }

    /// Returns true if this point comes strictly before `other` in
    /// lexicographic order.
    pub fn precedes(&self, other: &Point2Di64) -> (before: bool)
        ensures
            before == self.lex_lt(*other),
    {
        self.x < other.x || (self.x == other.x && self.y < other.y)
    }
}

impl AddSpecImpl for Point2Di64 {
    open spec fn obeys_add_spec() -> bool {
        true
    }

    open spec fn add_req(self, rhs: Point2Di64) -> bool {
        self.can_add(rhs)
    }

    open spec fn add_spec(self, rhs: Point2Di64) -> Point2Di64 {
        self.plus(rhs)
    }
}

impl core::ops::Add for Point2Di64 {
    type Output = Point2Di64;

    fn add(self, rhs: Point2Di64) -> Point2Di64 {
        Point2Di64 { x: self.x + rhs.x, y: self.y + rhs.y }
    }
}

impl SubSpecImpl for Point2Di64 {
    open spec fn obeys_sub_spec() -> bool {
        true
    }

    open spec fn sub_req(self, rhs: Point2Di64) -> bool {
        self.can_sub(rhs)
    }

    open spec fn sub_spec(self, rhs: Point2Di64) -> Point2Di64 {
        self.minus(rhs)
    }
}

impl core::ops::Sub for Point2Di64 {
    type Output = Point2Di64;

    fn sub(self, rhs: Point2Di64) -> Point2Di64 {
        Point2Di64 { x: self.x - rhs.x, y: self.y - rhs.y }
    }
}

impl MulSpecImpl<i64> for Point2Di64 {
    open spec fn obeys_mul_spec() -> bool {
        true
    }

    open spec fn mul_req(self, rhs: i64) -> bool {
        self.can_scale(rhs)
    }

    open spec fn mul_spec(self, rhs: i64) -> Point2Di64 {
        self.scaled(rhs)
    }
}

impl core::ops::Mul<i64> for Point2Di64 {
    type Output = Point2Di64;

    fn mul(self, rhs: i64) -> Point2Di64 {
        Point2Di64 { x: self.x * rhs, y: self.y * rhs }
    }
}

/// The lexicographic order is a strict total order.
pub proof fn lemma_order_is_total(a: Point2Di64, b: Point2Di64, c: Point2Di64)
    ensures
        !a.lex_lt(a),
        a.lex_lt(b) && b.lex_lt(c) ==> a.lex_lt(c),
        a.lex_lt(b) || b.lex_lt(a) || a == b,
        a.lex_lt(b) ==> !b.lex_lt(a),
{
}

/// Moving two points by the same vector keeps their order.
pub proof fn lemma_translation_keeps_order(
    a: Point2Di64,
    b: Point2Di64,
    v: Point2Di64,
    a_moved: Point2Di64,
    b_moved: Point2Di64,
)
    requires
        is_sum(a, v, a_moved),
        is_sum(b, v, b_moved),
    ensures
        a.lex_lt(b) <==> a_moved.lex_lt(b_moved),
        a == b <==> a_moved == b_moved,
{
}

} // verus!
