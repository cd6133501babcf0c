//! The heuristics by which TECs are compared: compression ratio,
//! compactness, and the size of the pattern's bounding box.

use crate::point_set::pattern::translated;
use crate::point_set::pattern::Pattern;
use crate::point_set::point::Point2Di64;
use crate::point_set::set::PointSet;
use crate::point_set::tec::is_covered_set;
use crate::point_set::tec::translators_fit;
use crate::point_set::tec::Tec;
use crate::point_set::tec::TecView;
use vstd::prelude::*;

verus! {

/// A ratio of two sizes. A ratio with denominator zero is larger than all
/// ratios with another denominator, if its numerator is not zero, and
/// otherwise not comparable.
#[derive(Debug, Clone, Copy, PartialEq, Eq, Structural)]
pub struct Ratio {
    /// The size that is divided.
    pub numerator: usize,
    /// The size that divides.
    pub denominator: usize,
}

impl Ratio {
    /// This ratio is larger than the other, by cross-multiplication.
    pub open spec fn spec_exceeds(self, other: Ratio) -> bool {
        self.numerator * other.denominator > other.numerator * self.denominator
    }

    /// Returns true if this ratio is larger than the other.
    pub fn exceeds(&self, other: &Ratio) -> (larger: bool)
        ensures
            larger == self.spec_exceeds(*other),
    {
        let a = self.numerator as u128;
        let b = other.denominator as u128;
        let c = other.numerator as u128;
        let d = self.denominator as u128;
        assert(a * b <= 0xFFFF_FFFF_FFFF_FFFF * 0xFFFF_FFFF_FFFF_FFFF) by (nonlinear_arith)
            requires
                a <= 0xFFFF_FFFF_FFFF_FFFF,
                b <= 0xFFFF_FFFF_FFFF_FFFF,
        ;
        assert(c * d <= 0xFFFF_FFFF_FFFF_FFFF * 0xFFFF_FFFF_FFFF_FFFF) by (nonlinear_arith)
            requires
                c <= 0xFFFF_FFFF_FFFF_FFFF,
                d <= 0xFFFF_FFFF_FFFF_FFFF,
        ;
        a * b > c * d
    }
}

/// An axis-aligned box, with its borders.
#[derive(Debug, Clone, Copy, PartialEq, Eq, Structural)]
pub struct BoundingBox {
    /// The smallest x coordinate in the box.
    pub lower_x: i64,
    /// The smallest y coordinate in the box.
    pub lower_y: i64,
    /// The largest x coordinate in the box.
    pub upper_x: i64,
    /// The largest y coordinate in the box.
    pub upper_y: i64,
}

/// The smallest x coordinate among the points.
pub open spec fn min_x(points: Seq<Point2Di64>) -> i64
    decreases points.len(),
{
    if points.len() <= 1 {
        points[0].x
    } else if points.last().x < min_x(points.drop_last()) {
        points.last().x
    } else {
        min_x(points.drop_last())
    }
}

/// The largest x coordinate among the points.
pub open spec fn max_x(points: Seq<Point2Di64>) -> i64
    decreases points.len(),
{
    if points.len() <= 1 {
        points[0].x
    } else if points.last().x > max_x(points.drop_last()) {
        points.last().x
    } else {
        max_x(points.drop_last())
    }
}

/// The smallest y coordinate among the points.
pub open spec fn min_y(points: Seq<Point2Di64>) -> i64
    decreases points.len(),
{
    if points.len() <= 1 {
        points[0].y
    } else if points.last().y < min_y(points.drop_last()) {
        points.last().y
    } else {
        min_y(points.drop_last())
    }
}

/// The largest y coordinate among the points.
pub open spec fn max_y(points: Seq<Point2Di64>) -> i64
    decreases points.len(),
{
    if points.len() <= 1 {
        points[0].y
    } else if points.last().y > max_y(points.drop_last()) {
        points.last().y
    } else {
        max_y(points.drop_last())
    }
}

/// The smallest box that holds all the points, of which there is at least
/// one.
pub open spec fn box_of(points: Seq<Point2Di64>) -> BoundingBox {
    BoundingBox {
        lower_x: min_x(points),
        lower_y: min_y(points),
        upper_x: max_x(points),
        upper_y: max_y(points),
    }
}

/// The number of the points that lie in the box.
pub open spec fn points_inside(points: Seq<Point2Di64>, bb: BoundingBox) -> nat
    decreases points.len(),
{
    if points.len() == 0 {
        0
    } else {
        points_inside(points.drop_last(), bb) + if bb.spec_contains(points.last()) {
            1nat
        } else {
            0nat
        }
    }
}

/// The occurrence with the given number: the pattern itself for number 0,
/// and otherwise the pattern moved by the translator before that number.
pub open spec fn occurrence(
    pattern: Seq<Point2Di64>,
    translators: Seq<Point2Di64>,
    number: int,
) -> Seq<Point2Di64> {
    if number <= 0 {
        pattern
    } else {
        translated(pattern, translators[number - 1])
    }
}

/// The best compactness among the first `count` occurrences: the largest
/// ratio of the size of the pattern to the number of points of the set in
/// the bounding box of an occurrence.
pub open spec fn compactness_up_to(
    points: Seq<Point2Di64>,
    pattern: Seq<Point2Di64>,
    translators: Seq<Point2Di64>,
    count: int,
) -> Ratio
    decreases count,
{
    if count <= 0 {
        Ratio { numerator: 0, denominator: 1 }
    } else {
        let best = compactness_up_to(points, pattern, translators, count - 1);
        let candidate = Ratio {
            numerator: pattern.len() as usize,
            denominator: points_inside(
                points,
                box_of(occurrence(pattern, translators, count - 1)),
            ) as usize,
        };
        if candidate.spec_exceeds(best) {
            candidate
        } else {
            best
        }
    }
}

/// The compactness of a TEC in a point set: the best among all its
/// occurrences, and zero for an empty pattern.
pub open spec fn compactness_of(points: Seq<Point2Di64>, tec: TecView) -> Ratio {
    if tec.pattern.len() == 0 {
        Ratio { numerator: 0, denominator: 1 }
    } else {
        compactness_up_to(points, tec.pattern, tec.translators, (tec.translators.len() + 1) as int)
    }
}

/// The width of the bounding box of the pattern, zero for an empty pattern.
pub open spec fn width_of(pattern: Seq<Point2Di64>) -> int {
    if pattern.len() == 0 {
        0
    } else {
        max_x(pattern) - min_x(pattern)
    }
}

/// The area of the bounding box of the pattern, zero for an empty pattern.
pub open spec fn area_of(pattern: Seq<Point2Di64>) -> int {
    if pattern.len() == 0 {
        0
    } else {
        (max_x(pattern) - min_x(pattern)) * (max_y(pattern) - min_y(pattern))
    }
}

impl BoundingBox {
    /// The point lies within the borders of the box.
    pub open spec fn spec_contains(self, point: Point2Di64) -> bool {
        &&& self.lower_x <= point.x <= self.upper_x
        &&& self.lower_y <= point.y <= self.upper_y
    }

    /// Returns true if the point lies within the borders of the box.
    pub fn contains(&self, point: &Point2Di64) -> (inside: bool)
        ensures
            inside == self.spec_contains(*point),
    {
        if point.x < self.lower_x {
            return false;
        }
        if point.x > self.upper_x {
            return false;
        }
        if point.y < self.lower_y {
            return false;
        }
        if point.y > self.upper_y {
            return false;
        }
        true
    }
}

/// Returns the smallest box that holds all the points of the pattern, or
/// nothing for an empty pattern.
pub fn bounding_box(pattern: &Pattern) -> (bb: Option<BoundingBox>)
    ensures
        pattern@.len() == 0 ==> bb.is_none(),
        pattern@.len() > 0 ==> bb == Some(box_of(pattern@)),
{
    if pattern.len() == 0 {
        return None;
    }
    let first = pattern[0];
    let mut bb = BoundingBox {
        lower_x: first.x,
        lower_y: first.y,
        upper_x: first.x,
        upper_y: first.y,
    };
    let mut i: usize = 1;
    assert(pattern@.subrange(0, 1).len() == 1);
    assert(pattern@.subrange(0, 1)[0] == pattern@[0]);
    while i < pattern.len()
        invariant
            1 <= i <= pattern@.len(),
            bb == box_of(pattern@.subrange(0, i as int)),
        decreases pattern@.len() - i,
    {
        let point = pattern[i];
        proof {
            assert(pattern@.subrange(0, i + 1).drop_last() =~= pattern@.subrange(0, i as int));
            assert(pattern@.subrange(0, i + 1).last() == pattern@[i as int]);
        }
        if point.x < bb.lower_x {
            bb.lower_x = point.x;
        }
        if point.x > bb.upper_x {
            bb.upper_x = point.x;
        }
        if point.y < bb.lower_y {
            bb.lower_y = point.y;
        }
        if point.y > bb.upper_y {
            bb.upper_y = point.y;
        }
        i += 1;
    }
    assert(pattern@.subrange(0, i as int) =~= pattern@);
    Some(bb)
}

/// Returns the number of points of the set that lie in the box.
pub fn count_inside(point_set: &PointSet, bb: &BoundingBox) -> (contained: usize)
    ensures
        contained == points_inside(point_set@, *bb),
{
    let mut contained: usize = 0;
    let mut i: usize = 0;
    assert(point_set@.subrange(0, 0) =~= Seq::<Point2Di64>::empty());
    while i < point_set.len()
        invariant
            i <= point_set@.len(),
            contained <= i,
            contained == points_inside(point_set@.subrange(0, i as int), *bb),
        decreases point_set@.len() - i,
    {
        proof {
            assert(point_set@.subrange(0, i + 1).drop_last() =~= point_set@.subrange(0, i as int));
            assert(point_set@.subrange(0, i + 1).last() == point_set@[i as int]);
        }
        if bb.contains(&point_set[i]) {
            contained += 1;
        }
        i += 1;
    }
    assert(point_set@.subrange(0, i as int) =~= point_set@);
    contained
}

/// A TEC with the values by which it is compared with others.
#[derive(Debug)]
pub struct TecStats {
    /// The TEC that the values belong to.
    pub tec: Tec,
    /// The compression ratio: the number of points that the TEC covers,
    /// divided by the number of points and translators that it consists of.
    pub comp_ratio: Ratio,
    /// The compactness: the best ratio, over the occurrences of the
    /// pattern, of the size of the pattern to the number of points of the
    /// set in the bounding box of the occurrence.
    pub compactness: Ratio,
    /// The points that the TEC covers.
    pub covered_set: PointSet,
    /// The width of the bounding box of the pattern.
    pub pattern_width: u64,
    /// The area of the bounding box of the pattern.
    pub pattern_area: u128,
}

/// What a TEC with its values is in contracts.
pub struct TecStatsView {
    /// The TEC.
    pub tec: TecView,
    /// The compression ratio.
    pub comp_ratio: Ratio,
    /// The compactness.
    pub compactness: Ratio,
    /// The points that the TEC covers.
    pub covered: Seq<Point2Di64>,
    /// The width of the bounding box of the pattern.
    pub pattern_width: u64,
    /// The area of the bounding box of the pattern.
    pub pattern_area: u128,
}

impl View for TecStats {
    type V = TecStatsView;

    open spec fn view(&self) -> TecStatsView {
        TecStatsView {
            tec: self.tec@,
            comp_ratio: self.comp_ratio,
            compactness: self.compactness,
            covered: self.covered_set@,
            pattern_width: self.pattern_width,
            pattern_area: self.pattern_area,
        }
    }
}

/// The values are those of the TEC in the point set.
pub open spec fn is_stats_of(points: Seq<Point2Di64>, tec: TecView, stats: TecStatsView) -> bool {
    &&& stats.tec == tec
    &&& is_covered_set(stats.covered, tec.pattern, tec.translators)
    &&& stats.comp_ratio == Ratio {
        numerator: stats.covered.len() as usize,
        denominator: size_of_tec(tec),
    }
    &&& stats.compactness == compactness_of(points, tec)
    &&& stats.pattern_width == width_of(tec.pattern)
    &&& stats.pattern_area == area_of(tec.pattern)
}

/// The first TEC is better than the second: it has the larger compression
/// ratio, or the larger compactness, or covers more points, or has the
/// larger pattern, or the narrower bounding box, or the bounding box of
/// smaller area. The first of these that holds decides; what comes after it
/// is not looked at, nor whether an earlier one holds the other way round.
pub open spec fn is_better(first: TecStatsView, second: TecStatsView) -> bool {
    ||| first.comp_ratio.spec_exceeds(second.comp_ratio)
    ||| first.compactness.spec_exceeds(second.compactness)
    ||| first.covered.len() > second.covered.len()
    ||| first.tec.pattern.len() > second.tec.pattern.len()
    ||| first.pattern_width < second.pattern_width
    ||| first.pattern_area < second.pattern_area
}

/// The size of what the TEC consists of: the number of its points and
/// translators together, or the largest size there is where that number
/// exceeds it.
pub open spec fn size_of_tec(tec: TecView) -> usize {
    if tec.pattern.len() + tec.translators.len() <= usize::MAX {
        (tec.pattern.len() + tec.translators.len()) as usize
    } else {
        usize::MAX
    }
}

/// Returns the TEC with the values by which it is compared with others.
pub fn stats_of(tec: Tec, point_set: &PointSet) -> (stats: TecStats)
    requires
        translators_fit(tec.pattern@, tec.translators@),
    ensures
        is_stats_of(point_set@, tec@, stats@),
{
    let covered_set = tec.covered_set();
    let comp_ratio = compr_ratio_with_cov(&tec, &covered_set);
    let compactness = bb_compactness(&tec, point_set);
    let (pattern_width, pattern_area) = match bounding_box(&tec.pattern) {
        None => (0u64, 0u128),
        Some(bb) => {
            let width = (bb.upper_x as i128 - bb.lower_x as i128) as u64;
            let height = (bb.upper_y as i128 - bb.lower_y as i128) as u64;
            proof {
                lemma_box_is_ordered(tec.pattern@);
            }
            assert(width as u128 * height as u128 <= 0xFFFF_FFFF_FFFF_FFFF * 0xFFFF_FFFF_FFFF_FFFF)
                by (nonlinear_arith)
                requires
                    width <= 0xFFFF_FFFF_FFFF_FFFF,
                    height <= 0xFFFF_FFFF_FFFF_FFFF,
            ;
            (width, width as u128 * height as u128)
        },
    };
    TecStats { tec, comp_ratio, compactness, covered_set, pattern_width, pattern_area }
}

impl TecStats {
    /// Returns true if this TEC is better than the other: at the first of
    /// the criteria compression ratio, compactness, number of covered
    /// points, size of the pattern, width and area of its bounding box at
    /// which this TEC beats the other.
    pub fn is_better_than(&self, other: &TecStats) -> (better: bool)
        ensures
            better == is_better(self@, other@),
    {
        if self.comp_ratio.exceeds(&other.comp_ratio) {
            return true;
        }
        if self.compactness.exceeds(&other.compactness) {
            return true;
        }
        if self.covered_set.len() > other.covered_set.len() {
            return true;
        }
        if self.tec.pattern.len() > other.tec.pattern.len() {
            return true;
        }
        if self.pattern_width < other.pattern_width {
            return true;
        }
        if self.pattern_area < other.pattern_area {
            return true;
        }
        false
    }
}

/// Returns the compression ratio of the TEC, given the set of the points
/// that it covers.
pub fn compr_ratio_with_cov(tec: &Tec, cov: &PointSet) -> (ratio: Ratio)
    ensures
        ratio == (Ratio { numerator: cov@.len() as usize, denominator: size_of_tec(tec@) }),
{
    let cov_size = cov.len();
    let pat_size = tec.pattern.len();
    let transl_size = tec.translators.len();
    // The TEC is expected to not contain a zero-translator, so the pattern
    // itself counts once.
    let tec_size = if pat_size > usize::MAX - transl_size {
        usize::MAX
    } else {
        pat_size + transl_size
    };
    Ratio { numerator: cov_size, denominator: tec_size }
}

/// Returns the compactness of the TEC in the point set.
pub fn bb_compactness(tec: &Tec, point_set: &PointSet) -> (compactness: Ratio)
    requires
        translators_fit(tec.pattern@, tec.translators@),
    ensures
        compactness == compactness_of(point_set@, tec@),
{
    let mut best_compactness = Ratio { numerator: 0, denominator: 1 };
    if tec.pattern.len() == 0 {
        return best_compactness;
    }
    let expanded = tec.expand();
    let pat_size = tec.pattern.len();
    let mut k: usize = 0;
    while k < expanded.len()
        invariant
            k <= expanded@.len(),
            expanded@.len() == tec.translators@.len() + 1,
            pat_size == tec.pattern@.len(),
            pat_size > 0,
            expanded@[0]@ == tec.pattern@,
            forall|m: int|
                0 <= m < tec.translators@.len() ==> (#[trigger] expanded@[m + 1])@ == translated(
                    tec.pattern@,
                    tec.translators@[m],
                ),
            best_compactness == compactness_up_to(
                point_set@,
                tec.pattern@,
                tec.translators@,
                k as int,
            ),
        decreases expanded@.len() - k,
    {
        let pattern = &expanded[k];
        proof {
            if k > 0 {
                assert(expanded@[(k - 1) + 1]@ == translated(
                    tec.pattern@,
                    tec.translators@[k - 1],
                ));
            }
            assert(pattern@ == occurrence(tec.pattern@, tec.translators@, k as int));
            assert(pattern@.len() == pat_size);
        }
        match bounding_box(pattern) {
            Some(bb) => {
                let contained = count_inside(point_set, &bb);
                let compactness = Ratio { numerator: pat_size, denominator: contained };
                if compactness.exceeds(&best_compactness) {
                    best_compactness = compactness;
                }
            },
            None => {
                // A pattern with a point has a bounding box.
                assert(false);
            },
        }
        k += 1;
    }
    best_compactness
}

/// The borders of the smallest box of at least one point are in order.
pub proof fn lemma_box_is_ordered(points: Seq<Point2Di64>)
    requires
        points.len() > 0,
    ensures
        min_x(points) <= max_x(points),
        min_y(points) <= max_y(points),
    decreases points.len(),
{
    if points.len() > 1 {
        lemma_box_is_ordered(points.drop_last());
    }
}

} // verus!
