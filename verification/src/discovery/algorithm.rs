//! What the discovery algorithms have in common: where their output goes
//! and what a caller can rely on.

use crate::point_set::mtp::mtp_views;
use crate::point_set::mtp::Mtp;
use crate::point_set::mtp::MtpView;
use crate::point_set::point::Point2Di64;
use crate::point_set::set::PointSet;
use crate::point_set::tec::is_tec_in;
use crate::point_set::tec::tec_views;
use crate::point_set::tec::Tec;
use crate::point_set::tec::TecView;
use vstd::prelude::*;

verus! {

/// `longer` is `shorter` followed by `added`.
pub open spec fn is_extended_by<T>(longer: Seq<T>, shorter: Seq<T>, added: Seq<T>) -> bool {
    longer == shorter + added
}

/// Takes the MTPs that an algorithm produces, one at a time.
pub trait MtpOutput {
    /// The MTPs taken so far, oldest first.
    spec fn received(&self) -> Seq<MtpView>;

    /// Takes one MTP.
    fn output(&mut self, mtp: Mtp)
        ensures
            final(self).received() == old(self).received().push(mtp@),
    ;
}

/// Takes the TECs that an algorithm produces, one at a time.
pub trait TecOutput {
    /// The TECs taken so far, oldest first.
    spec fn received(&self) -> Seq<TecView>;

    /// Takes one TEC.
    fn output(&mut self, tec: Tec)
        ensures
            final(self).received() == old(self).received().push(tec@),
    ;
}

/// An output that keeps every MTP it takes.
pub struct MtpCollector {
    /// The MTPs taken so far, oldest first.
    pub mtps: Vec<Mtp>,
}

impl MtpOutput for MtpCollector {
    open spec fn received(&self) -> Seq<MtpView> {
        mtp_views(self.mtps@)
    }

    fn output(&mut self, mtp: Mtp) {
        self.mtps.push(mtp);
        assert(mtp_views(self.mtps@) =~= mtp_views(old(self).mtps@).push(mtp@));
    }
}

/// An output that keeps every TEC it takes.
pub struct TecCollector {
    /// The TECs taken so far, oldest first.
    pub tecs: Vec<Tec>,
}

impl TecOutput for TecCollector {
    open spec fn received(&self) -> Seq<TecView> {
        tec_views(self.tecs@)
    }

    fn output(&mut self, tec: Tec) {
        self.tecs.push(tec);
        assert(tec_views(self.tecs@) =~= tec_views(old(self).tecs@).push(tec@));
    }
}

/// An output that hands every MTP it takes on to a function.
pub struct MtpCallback<F: FnMut(Mtp)> {
    callback: F,
    taken: Ghost<Seq<MtpView>>,
}

impl<F: FnMut(Mtp)> MtpCallback<F> {
    /// Returns an output that hands every MTP it takes on to the given
    /// function.
    pub fn new(callback: F) -> (output: MtpCallback<F>)
        ensures
            output.received() == Seq::<MtpView>::empty(),
    {
        MtpCallback { callback, taken: Ghost(Seq::empty()) }
    }
}

impl<F: FnMut(Mtp)> MtpOutput for MtpCallback<F> {
    closed spec fn received(&self) -> Seq<MtpView> {
        self.taken@
    }

    fn output(&mut self, mtp: Mtp) {
        let ghost view = mtp@;
        hand_mtp_on(&mut self.callback, mtp);
        self.taken = Ghost(self.taken@.push(view));
    }
}

/// Calls the function with the MTP, by the standard library's
/// `FnMut::call_mut`. Nothing is claimed of what the function does.
#[verifier::external_body]
fn hand_mtp_on<F: FnMut(Mtp)>(callback: &mut F, mtp: Mtp) {
    callback(mtp)
}

/// An output that hands every TEC it takes on to a function.
pub struct TecCallback<F: FnMut(Tec)> {
    callback: F,
    taken: Ghost<Seq<TecView>>,
}

impl<F: FnMut(Tec)> TecCallback<F> {
    /// Returns an output that hands every TEC it takes on to the given
    /// function.
    pub fn new(callback: F) -> (output: TecCallback<F>)
        ensures
            output.received() == Seq::<TecView>::empty(),
    {
        TecCallback { callback, taken: Ghost(Seq::empty()) }
    }
}

impl<F: FnMut(Tec)> TecOutput for TecCallback<F> {
    closed spec fn received(&self) -> Seq<TecView> {
        self.taken@
    }

    fn output(&mut self, tec: Tec) {
        let ghost view = tec@;
        hand_tec_on(&mut self.callback, tec);
        self.taken = Ghost(self.taken@.push(view));
    }
}

/// Calls the function with the TEC, by the standard library's
/// `FnMut::call_mut`. Nothing is claimed of what the function does.
#[verifier::external_body]
fn hand_tec_on<F: FnMut(Tec)>(callback: &mut F, tec: Tec) {
    callback(tec)
}

/// An algorithm that computes MTPs from a point set.
pub trait MtpAlgorithm {
    /// The point sets on which the algorithm can run.
    spec fn accepts(&self, points: Seq<Point2Di64>) -> bool;

    /// What the algorithm produces for a point set.
    spec fn produces(&self, points: Seq<Point2Di64>, mtps: Seq<MtpView>) -> bool;

    /// Returns the MTPs in the given point set. Whether all MTPs are
    /// returned depends on the algorithm. This collects all output in
    /// memory, so for large point sets `compute_mtps_to_output` is the
    /// better choice.
    fn compute_mtps(&self, point_set: &PointSet) -> (mtps: Vec<Mtp>)
        requires
            self.accepts(point_set@),
        ensures
            self.produces(point_set@, mtp_views(mtps@)),
    ;

    /// Computes the MTPs in the given point set and hands each one to
    /// `on_output` as soon as it is known.
    fn compute_mtps_to_output<O: MtpOutput>(&self, point_set: &PointSet, on_output: &mut O)
        requires
            self.accepts(point_set@),
        ensures
            exists|mtps: Seq<MtpView>|
                #![trigger self.produces(point_set@, mtps)]
                self.produces(point_set@, mtps) && is_extended_by(
                    final(on_output).received(),
                    old(on_output).received(),
                    mtps,
                ),
    ;
}

/// The TEC has neither points nor translators.
pub open spec fn is_empty_tec(tec: TecView) -> bool {
    tec.pattern.len() == 0 && tec.translators.len() == 0
}

/// An algorithm that computes TECs in a point set.
pub trait TecAlgorithm {
    /// The point sets on which the algorithm can run.
    spec fn accepts(&self, points: Seq<Point2Di64>) -> bool;

    /// What the algorithm produces for a point set.
    spec fn produces(&self, points: Seq<Point2Di64>, tecs: Seq<TecView>) -> bool;

    /// Whether every TEC that the algorithm computes has a pattern. An
    /// algorithm of which this does not hold may put out TECs without
    /// points, which cover nothing.
    spec fn gives_patterns(&self) -> bool;

    /// Returns the TECs in the given point set. The patterns for which the
    /// TECs are returned depend on the algorithm. This collects all output
    /// in memory, so for large point sets `compute_tecs_to_output` is the
    /// better choice.
    fn compute_tecs(&self, point_set: &PointSet) -> (tecs: Vec<Tec>)
        requires
            self.accepts(point_set@),
        ensures
            self.produces(point_set@, tec_views(tecs@)),
            forall|k: int|
                0 <= k < tecs@.len() ==> is_tec_in(point_set@, #[trigger] tecs@[k]@) || (
                !self.gives_patterns() && is_empty_tec(tecs@[k]@)),
    ;

    /// Computes the TECs in the given point set and hands each one to
    /// `on_output` as soon as it is known.
    fn compute_tecs_to_output<O: TecOutput>(&self, point_set: &PointSet, on_output: &mut O)
        requires
            self.accepts(point_set@),
        ensures
            exists|tecs: Seq<TecView>|
                #![trigger self.produces(point_set@, tecs)]
                self.produces(point_set@, tecs) && is_extended_by(
                    final(on_output).received(),
                    old(on_output).received(),
                    tecs,
                ) && forall|k: int|
                    0 <= k < tecs.len() ==> is_tec_in(point_set@, #[trigger] tecs[k]) || (
                    !self.gives_patterns() && is_empty_tec(tecs[k])),
    ;
}

/// Every TEC that the algorithm computes in the points has a pattern: the
/// algorithm gives patterns only, or nothing that it produces for these
/// points holds a TEC without points.
pub open spec fn finds_patterns_in<A: TecAlgorithm>(algorithm: A, points: Seq<Point2Di64>) -> bool {
    algorithm.gives_patterns() || forall|tecs: Seq<TecView>, k: int|
        #![trigger algorithm.produces(points, tecs), tecs[k]]
        algorithm.produces(points, tecs) && 0 <= k < tecs.len() ==> tecs[k].pattern.len() > 0
}

} // verus!
