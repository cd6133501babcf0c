//! Maximal translatable patterns.

use crate::point_set::pattern::Pattern;
use crate::point_set::point::is_sum;
use crate::point_set::point::Point2Di64;
use crate::point_set::set::strictly_ascending;
use vstd::prelude::*;

verus! {

/// `p` moved by `translator` is a point of `points`.
pub open spec fn translated_in(
    points: Seq<Point2Di64>,
    p: Point2Di64,
    translator: Point2Di64,
) -> bool {
    exists|k: int| 0 <= k < points.len() && is_sum(p, translator, #[trigger] points[k])
}

/// `pattern` is the maximal translatable pattern of `points` for
/// `translator`: it holds, in ascending order, the points of the set that
/// the translator moves onto a point of the set.
pub open spec fn is_mtp_of(
    points: Seq<Point2Di64>,
    translator: Point2Di64,
    pattern: Seq<Point2Di64>,
) -> bool {
    &&& strictly_ascending(pattern)
    &&& forall|p: Point2Di64|
        pattern.contains(p) <==> (points.contains(p) && translated_in(points, p, translator))
}

/// Represents a Maximal Translatable Pattern (MTP).
/// An MTP is the set of all points in a point set D that can be translated
/// by a vector so that the translated points are also within the point set
/// D.
#[derive(Debug, PartialEq, Eq)]
pub struct Mtp {
    /// The vector that moves every point of the pattern onto a point of the
    /// set.
    pub translator: Point2Di64,
    /// The points that the translator moves within the set.
    pub pattern: Pattern,
}

/// What an MTP is in contracts: its translator and the points of its
/// pattern.
pub struct MtpView {
    /// The translator of the MTP.
    pub translator: Point2Di64,
    /// The points of the pattern, in the pattern's order.
    pub pattern: Seq<Point2Di64>,
}

impl View for Mtp {
    type V = MtpView;

    open spec fn view(&self) -> MtpView {
        MtpView { translator: self.translator, pattern: self.pattern@ }
    }
}

/// The views of the given MTPs, in the same order.
pub open spec fn mtp_views(mtps: Seq<Mtp>) -> Seq<MtpView> {
    Seq::new(mtps.len(), |k: int| mtps[k]@)
}

} // verus!
