//! The COSIATEC algorithm: covers a point set with TECs, each time taking
//! the best TEC of the points that are not yet covered.

use crate::discovery::algorithm::finds_patterns_in;
use crate::discovery::algorithm::is_empty_tec;
use crate::discovery::algorithm::is_extended_by;
use crate::discovery::algorithm::TecAlgorithm;
use crate::discovery::algorithm::TecCollector;
use crate::discovery::algorithm::TecOutput;
use crate::discovery::heuristic::is_better;
use crate::discovery::heuristic::is_stats_of;
use crate::discovery::heuristic::stats_of;
use crate::discovery::heuristic::TecStats;
use crate::discovery::heuristic::TecStatsView;
use crate::point_set::mtp::translated_in;
use crate::point_set::pattern::Pattern;
use crate::point_set::pattern::can_translate;
use crate::point_set::point::is_sum;
use crate::point_set::point::Point2Di64;
use crate::point_set::set::differences_fit;
use crate::point_set::set::is_difference;
use crate::point_set::set::strictly_ascending;
use crate::point_set::set::PointSet;
use crate::point_set::tec::can_conjugate;
use crate::point_set::tec::conjugate_pattern;
use crate::point_set::tec::conjugate_translators;
use crate::point_set::tec::covers;
use crate::point_set::tec::covers_without;
use crate::point_set::tec::is_covered_set;
use crate::point_set::tec::is_essential;
use crate::point_set::tec::is_tec_in;
use crate::point_set::tec::is_translator_of;
use crate::point_set::tec::tec_views;
use crate::point_set::tec::translators_fit;
use crate::point_set::tec::Tec;
use crate::point_set::tec::TecView;
use vstd::prelude::*;

verus! {

/// The points of `part` are points of `points`, in ascending order.
pub open spec fn is_part_of(part: Seq<Point2Di64>, points: Seq<Point2Di64>) -> bool {
    &&& strictly_ascending(part)
    &&& forall|i: int| 0 <= i < part.len() ==> points.contains(#[trigger] part[i])
}

/// The TEC lies in the points: its pattern is a non-empty selection of
/// them, and every translator moves the whole pattern onto them.
pub open spec fn lies_in(points: Seq<Point2Di64>, tec: TecView) -> bool {
    &&& tec.pattern.len() > 0
    &&& forall|i: int| 0 <= i < tec.pattern.len() ==> points.contains(#[trigger] tec.pattern[i])
    &&& forall|k: int|
        0 <= k < tec.translators.len() ==> is_translator_of(
            points,
            tec.pattern,
            #[trigger] tec.translators[k],
        )
}

/// `reduced` is the TEC without its redundant translators: it has the same
/// pattern and, in ascending order, those translators without which some
/// point would not be covered.
pub open spec fn is_reduction_of(tec: TecView, reduced: TecView) -> bool {
    &&& reduced.pattern == tec.pattern
    &&& strictly_ascending(reduced.translators)
    &&& forall|t: Point2Di64|
        reduced.translators.contains(t) <==> (tec.translators.contains(t) && is_essential(
            tec.pattern,
            tec.translators,
            t,
        ))
}

/// The conjugate of the TEC.
pub open spec fn conjugate_of(tec: TecView) -> TecView {
    TecView {
        pattern: conjugate_pattern(tec.pattern, tec.translators),
        translators: conjugate_translators(tec.pattern),
    }
}

/// The candidates that the TECs give rise to: for each TEC, in their
/// order, the TEC without its redundant translators and then its conjugate
/// without its redundant translators, each with its values in the point
/// set.
pub open spec fn are_candidates_of(
    points: Seq<Point2Di64>,
    tecs: Seq<TecView>,
    candidates: Seq<TecStatsView>,
) -> bool {
    &&& candidates.len() == 2 * tecs.len()
    &&& forall|k: int|
        0 <= k < tecs.len() ==> is_reduction_of(#[trigger] tecs[k], candidates[2 * k].tec)
            && is_stats_of(points, candidates[2 * k].tec, candidates[2 * k])
    &&& forall|k: int|
        0 <= k < tecs.len() ==> is_reduction_of(
            conjugate_of(#[trigger] tecs[k]),
            candidates[2 * k + 1].tec,
        ) && is_stats_of(points, candidates[2 * k + 1].tec, candidates[2 * k + 1])
}

/// The best of the candidates as a scan finds it: the first candidate is
/// the best to begin with, and each later one takes its place if it is
/// better than the best so far. There is none where there is no candidate.
pub open spec fn best_of_scan(candidates: Seq<TecStatsView>) -> Option<TecStatsView>
    decreases candidates.len(),
{
    if candidates.len() == 0 {
        None
    } else {
        match best_of_scan(candidates.drop_last()) {
            None => Some(candidates.last()),
            Some(best) => if is_better(candidates.last(), best) {
                Some(candidates.last())
            } else {
                Some(best)
            },
        }
    }
}

/// `best` is the best candidate among those that the TECs of the points,
/// as the algorithm produces them, give rise to.
pub open spec fn is_best_in<A: TecAlgorithm>(
    algorithm: A,
    points: Seq<Point2Di64>,
    best: Option<TecStatsView>,
) -> bool {
    exists|tecs: Seq<TecView>, candidates: Seq<TecStatsView>|
        #![trigger are_candidates_of(points, tecs, candidates)]
        algorithm.produces(points, tecs) && are_candidates_of(points, tecs, candidates) && best
            == best_of_scan(candidates)
}

/// A step of the covering that finds a TEC: `tec` is the best candidate in
/// the points left, and `rest` holds the points left that it does not
/// cover.
pub open spec fn is_step_with_best<A: TecAlgorithm>(
    algorithm: A,
    left: Seq<Point2Di64>,
    tec: TecView,
    rest: Seq<Point2Di64>,
) -> bool {
    exists|best: TecStatsView|
        #![trigger is_best_in(algorithm, left, Some(best))]
        is_best_in(algorithm, left, Some(best)) && best.tec == tec && is_difference(
            rest,
            left,
            best.covered,
        )
}

/// One step of the covering. Where the points left give rise to a
/// candidate, `tec` is the best of them and `rest` holds the points left
/// that it does not cover. Where they give rise to none, `tec` has neither
/// points nor translators, and the points left stay as they are.
pub open spec fn is_covering_step<A: TecAlgorithm>(
    algorithm: A,
    left: Seq<Point2Di64>,
    tec: TecView,
    rest: Seq<Point2Di64>,
) -> bool {
    ||| is_step_with_best(algorithm, left, tec, rest)
    ||| (is_best_in(algorithm, left, None) && is_empty_tec(tec) && rest == left)
}

/// The TECs cover the points step by step: `residuals` holds the points
/// left before each step and after the last. The covering ends when no
/// point is left or when there are as many TECs as points, and not before.
/// Fewer than two points hold no TEC, and nothing is put out for them.
pub open spec fn is_covering<A: TecAlgorithm>(
    algorithm: A,
    points: Seq<Point2Di64>,
    residuals: Seq<Seq<Point2Di64>>,
    tecs: Seq<TecView>,
) -> bool {
    &&& residuals.len() == tecs.len() + 1
    &&& residuals[0] == points
    &&& tecs.len() <= points.len()
    &&& forall|k: int|
        0 <= k < tecs.len() ==> is_covering_step(
            algorithm,
            residuals[k],
            #[trigger] tecs[k],
            residuals[k + 1],
        )
    &&& if points.len() < 2 {
        tecs.len() == 0
    } else {
        residuals.last().len() == 0 || tecs.len() == points.len()
    }
}

/// The TEC at position `k` covers the point.
pub open spec fn is_covered_at(tecs: Seq<TecView>, k: int, p: Point2Di64) -> bool {
    0 <= k < tecs.len() && covers(tecs[k].pattern, tecs[k].translators, p)
}

/// The best of a scan is one of the candidates.
proof fn lemma_best_is_candidate(candidates: Seq<TecStatsView>)
    ensures
        match best_of_scan(candidates) {
            Some(best) => candidates.contains(best),
            None => candidates.len() == 0,
        },
    decreases candidates.len(),
{
    if candidates.len() > 0 {
        let before = candidates.drop_last();
        lemma_best_is_candidate(before);
        assert(candidates[candidates.len() - 1] == candidates.last());
        match best_of_scan(before) {
            Some(best) => {
                let i = choose|i: int| 0 <= i < before.len() && before[i] == best;
                assert(candidates[i] == best);
            },
            None => {},
        }
    }
}

/// A point that a step of the covering takes away is covered by the TEC of
/// that step.
proof fn lemma_step_covers_what_it_takes<A: TecAlgorithm>(
    algorithm: A,
    left: Seq<Point2Di64>,
    tec: TecView,
    rest: Seq<Point2Di64>,
    p: Point2Di64,
)
    requires
        is_covering_step(algorithm, left, tec, rest),
        left.contains(p),
        !rest.contains(p),
    ensures
        covers(tec.pattern, tec.translators, p),
{
    assert(is_step_with_best(algorithm, left, tec, rest));
    let best = choose|best: TecStatsView|
        #![trigger is_best_in(algorithm, left, Some(best))]
        is_best_in(algorithm, left, Some(best)) && best.tec == tec && is_difference(
            rest,
            left,
            best.covered,
        );
    let (found, candidates) = choose|found: Seq<TecView>, candidates: Seq<TecStatsView>|
        #![trigger are_candidates_of(left, found, candidates)]
        algorithm.produces(left, found) && are_candidates_of(left, found, candidates) && Some(best)
            == best_of_scan(candidates);
    lemma_best_is_candidate(candidates);
    let i = choose|i: int| 0 <= i < candidates.len() && candidates[i] == best;
    let k = i / 2;
    if i == 2 * k {
        assert(is_reduction_of(found[k], candidates[2 * k].tec));
        assert(is_stats_of(left, candidates[2 * k].tec, candidates[2 * k]));
    } else {
        assert(i == 2 * k + 1);
        assert(is_reduction_of(conjugate_of(found[k]), candidates[2 * k + 1].tec));
        assert(is_stats_of(left, candidates[2 * k + 1].tec, candidates[2 * k + 1]));
    }
    assert(is_covered_set(best.covered, tec.pattern, tec.translators));
    assert(best.covered.contains(p));
}

/// After the first `count` steps of a covering, every point is left or is
/// covered by the TEC of one of these steps.
proof fn lemma_left_or_covered<A: TecAlgorithm>(
    algorithm: A,
    points: Seq<Point2Di64>,
    residuals: Seq<Seq<Point2Di64>>,
    tecs: Seq<TecView>,
    p: Point2Di64,
    count: int,
)
    requires
        is_covering(algorithm, points, residuals, tecs),
        points.contains(p),
        0 <= count <= tecs.len(),
    ensures
        residuals[count].contains(p) || exists|k: int|
            0 <= k < count && #[trigger] is_covered_at(tecs, k, p),
    decreases count,
{
    if count > 0 {
        lemma_left_or_covered(algorithm, points, residuals, tecs, p, count - 1);
        if residuals[count - 1].contains(p) {
            let step = count - 1;
            assert(is_covering_step(algorithm, residuals[step], tecs[step], residuals[step + 1]));
            if !residuals[count].contains(p) {
                lemma_step_covers_what_it_takes(
                    algorithm,
                    residuals[step],
                    tecs[step],
                    residuals[step + 1],
                    p,
                );
                assert(is_covered_at(tecs, step, p));
            }
        } else {
            let k = choose|k: int| 0 <= k < count - 1 && #[trigger] is_covered_at(tecs, k, p);
            assert(is_covered_at(tecs, k, p));
        }
    }
}

/// Where a covering of two or more points has fewer TECs than there are
/// points, it has come to its end because no point was left: every point
/// is covered by one of its TECs.
pub proof fn lemma_short_covering_covers_all<A: TecAlgorithm>(
    algorithm: A,
    points: Seq<Point2Di64>,
    residuals: Seq<Seq<Point2Di64>>,
    tecs: Seq<TecView>,
    p: Point2Di64,
)
    requires
        is_covering(algorithm, points, residuals, tecs),
        points.len() >= 2,
        tecs.len() < points.len(),
        points.contains(p),
    ensures
        exists|k: int| #[trigger] is_covered_at(tecs, k, p),
{
    lemma_left_or_covered(algorithm, points, residuals, tecs, p, tecs.len() as int);
    assert(residuals.last().len() == 0);
    assert(residuals[tecs.len() as int] == residuals.last());
    if residuals.last().contains(p) {
        let i = choose|i: int| 0 <= i < residuals.last().len() && residuals.last()[i] == p;
    }
    let k = choose|k: int| 0 <= k < tecs.len() && #[trigger] is_covered_at(tecs, k, p);
    assert(is_covered_at(tecs, k, p));
}

/// What COSIATEC produces: a covering of the points by TECs.
pub open spec fn is_cosiatec_result<A: TecAlgorithm>(
    algorithm: A,
    points: Seq<Point2Di64>,
    tecs: Seq<TecView>,
) -> bool {
    exists|residuals: Seq<Seq<Point2Di64>>|
        #![trigger is_covering(algorithm, points, residuals, tecs)]
        is_covering(algorithm, points, residuals, tecs)
}

/// Implements the COSIATEC algorithm, on top of an algorithm that computes
/// the TECs to choose from. Each round puts out one TEC: the best candidate
/// in the points left, or a TEC without points where the points left give
/// rise to no candidate. The rounds end when no point is left, and after as
/// many rounds as there are points at the latest.
pub struct Cosiatec<A: TecAlgorithm> {
    /// The algorithm that computes the TEC candidates.
    pub tec_algorithm: A,
}

impl<A: TecAlgorithm> TecAlgorithm for Cosiatec<A> {
    /// The TEC-algorithm must accept every selection of the points, and
    /// every TEC that it computes in one must have a pattern: a TEC
    /// without points has no conjugate.
    open spec fn accepts(&self, points: Seq<Point2Di64>) -> bool {
        &&& differences_fit(points)
        &&& forall|part: Seq<Point2Di64>|
            #[trigger] is_part_of(part, points) ==> self.tec_algorithm.accepts(part)
                && finds_patterns_in(self.tec_algorithm, part)
    }

    open spec fn produces(&self, points: Seq<Point2Di64>, tecs: Seq<TecView>) -> bool {
        is_cosiatec_result(self.tec_algorithm, points, tecs)
    }

    open spec fn gives_patterns(&self) -> bool {
        false
    }

    fn compute_tecs(&self, point_set: &PointSet) -> (tecs: Vec<Tec>) {
        let mut collector = TecCollector { tecs: Vec::new() };
        self.compute_tecs_to_output(point_set, &mut collector);
        proof {
            let found = choose|found: Seq<TecView>|
                #![trigger self.produces(point_set@, found)]
                self.produces(point_set@, found) && is_extended_by(
                    collector.received(),
                    Seq::<TecView>::empty(),
                    found,
                ) && forall|k: int|
                    0 <= k < found.len() ==> is_tec_in(point_set@, #[trigger] found[k])
                        || is_empty_tec(found[k]);
            assert(tec_views(Seq::<Tec>::empty()) =~= Seq::<TecView>::empty());
            assert(Seq::<TecView>::empty() + found =~= found);
            assert forall|k: int| 0 <= k < collector.tecs@.len() implies is_tec_in(
                point_set@,
                #[trigger] collector.tecs@[k]@,
            ) || is_empty_tec(collector.tecs@[k]@) by {
                assert(found[k] == collector.tecs@[k]@);
            }
        }
        collector.tecs
    }

    fn compute_tecs_to_output<O: TecOutput>(&self, point_set: &PointSet, on_output: &mut O) {
        proof {
            use_type_invariant(point_set);
        }
        let ghost points = point_set@;
        let ghost emitted: Seq<TecView> = Seq::empty();
        let ghost residuals: Seq<Seq<Point2Di64>> = seq![points];
        assert(old(on_output).received() + emitted =~= old(on_output).received());
        let mut point_set_clone = point_set.copy();
        let n = point_set.len();
        let mut iterations: usize = 0;
        proof {
            assert forall|i: int| 0 <= i < points.len() implies points.contains(
                #[trigger] points[i],
            ) by {}
        }
        if n < 2 {
            proof {
                assert(is_covering(self.tec_algorithm, points, residuals, emitted));
                assert(self.produces(points, emitted));
            }
            return ;
        }
        while !point_set_clone.is_empty() && iterations < n
            invariant
                n == points.len(),
                n >= 2,
                points == point_set@,
                iterations <= n,
                self.accepts(points),
                is_part_of(point_set_clone@, points),
                on_output.received() == old(on_output).received() + emitted,
                emitted.len() == iterations,
                residuals.len() == emitted.len() + 1,
                residuals[0] == points,
                residuals.last() == point_set_clone@,
                forall|k: int|
                    0 <= k < emitted.len() ==> is_covering_step(
                        self.tec_algorithm,
                        residuals[k],
                        #[trigger] emitted[k],
                        residuals[k + 1],
                    ),
                forall|k: int|
                    0 <= k < emitted.len() ==> is_tec_in(points, #[trigger] emitted[k])
                        || is_empty_tec(emitted[k]),
            decreases n - iterations,
        {
            proof {
                lemma_part_differences_fit(point_set_clone@, points);
            }
            let ghost left = point_set_clone@;
            let tec = match self.get_best_tec(&point_set_clone) {
                None => {
                    let empty = Tec {
                        pattern: Pattern::from_points(Vec::new()),
                        translators: Vec::new(),
                    };
                    proof {
                        assert(is_empty_tec(empty@));
                        assert(is_covering_step(self.tec_algorithm, left, empty@, left));
                    }
                    empty
                },
                Some(best) => {
                    point_set_clone = point_set_clone.difference(&best.covered_set);
                    proof {
                        let rest = point_set_clone@;
                        assert(is_step_with_best(self.tec_algorithm, left, best.tec@, rest));
                        lemma_rest_is_part(rest, left, best.covered_set@, points);
                        lemma_tec_in_whole(left, points, best.tec@);
                    }
                    best.tec
                },
            };
            proof {
                let rest = point_set_clone@;
                let longer = emitted.push(tec@);
                let more = residuals.push(rest);
                assert forall|k: int| 0 <= k < longer.len() implies is_covering_step(
                    self.tec_algorithm,
                    more[k],
                    #[trigger] longer[k],
                    more[k + 1],
                ) by {
                    if k < emitted.len() {
                        assert(more[k] == residuals[k]);
                        assert(more[k + 1] == residuals[k + 1]);
                        assert(longer[k] == emitted[k]);
                    }
                }
                assert forall|k: int| 0 <= k < longer.len() implies is_tec_in(
                    points,
                    #[trigger] longer[k],
                ) || is_empty_tec(longer[k]) by {
                    if k < emitted.len() {
                        assert(longer[k] == emitted[k]);
                    }
                }
                assert((old(on_output).received() + emitted).push(tec@) =~= old(
                    on_output,
                ).received() + longer);
                emitted = longer;
                residuals = more;
            }
            on_output.output(tec);
            iterations += 1;
        }
        proof {
            assert(is_covering(self.tec_algorithm, points, residuals, emitted));
            assert(self.produces(points, emitted));
        }
    }
}

impl<A: TecAlgorithm> Cosiatec<A> {
    /// Creates a new instance of COSIATEC that uses the given
    /// TEC-algorithm for computing the TEC candidates.
    pub fn with(tec_algorithm: A) -> (cosiatec: Cosiatec<A>)
        ensures
            cosiatec.tec_algorithm == tec_algorithm,
    {
        Cosiatec { tec_algorithm }
    }

    /// Finds the best TEC in the point set: among the TECs that the
    /// TEC-algorithm computes and their conjugates, each without its
    /// redundant translators, the one that a scan with the heuristics finds
    /// best. Returns nothing where the TEC-algorithm computes no TEC.
    pub fn get_best_tec(&self, point_set: &PointSet) -> (best: Option<TecStats>)
        requires
            differences_fit(point_set@),
            self.tec_algorithm.accepts(point_set@),
            finds_patterns_in(self.tec_algorithm, point_set@),
        ensures
            is_best_in(
                self.tec_algorithm,
                point_set@,
                match best {
                    Some(stats) => Some(stats@),
                    None => None,
                },
            ),
            match best {
                Some(stats) => is_tec_in(point_set@, stats.tec@) && is_covered_set(
                    stats.covered_set@,
                    stats.tec@.pattern,
                    stats.tec@.translators,
                ),
                None => true,
            },
    {
        let ghost points = point_set@;
        let tecs = self.tec_algorithm.compute_tecs(point_set);
        let ghost views = tec_views(tecs@);
        proof {
            assert forall|x: int| 0 <= x < tecs@.len() implies is_tec_in(
                points,
                (#[trigger] tecs@[x])@,
            ) by {
                assert(views[x] == tecs@[x]@);
                assert(self.tec_algorithm.produces(points, views));
            }
        }
        let ghost candidates: Seq<TecStatsView> = Seq::empty();
        let mut best: Option<TecStats> = None;
        let mut k: usize = 0;
        while k < tecs.len()
            invariant
                k <= tecs@.len(),
                points == point_set@,
                views == tec_views(tecs@),
                differences_fit(points),
                forall|x: int| 0 <= x < tecs@.len() ==> is_tec_in(points, (#[trigger] tecs@[x])@),
                are_candidates_of(points, views.subrange(0, k as int), candidates),
                best_of_scan(candidates) == match best {
                    Some(stats) => Some(stats@),
                    None => None::<TecStatsView>,
                },
                match best {
                    Some(stats) => is_tec_in(points, stats.tec@) && is_covered_set(
                        stats.covered_set@,
                        stats.tec@.pattern,
                        stats.tec@.translators,
                    ),
                    None => true,
                },
            decreases tecs@.len() - k,
        {
            let tec = &tecs[k];
            let ghost before = candidates;
            proof {
                assert(is_tec_in(points, tecs@[k as int]@));
                lemma_tec_lies_in(points, tec@);
                lemma_lying_tec_fits(points, tec@);
                lemma_tec_can_conjugate(points, tec@);
            }
            let reduced = tec.remove_redundant_translators();
            proof {
                lemma_reduction_is_tec(points, tec@, reduced@);
            }
            let candidate = stats_of(reduced, point_set);
            let ghost first = candidate@;
            best = Cosiatec::<A>::better_of(best, candidate, Ghost(candidates));
            proof {
                candidates = candidates.push(first);
            }
            let conjugate_tec = tec.conjugate();
            proof {
                lemma_conjugate_lies_in(points, tec@);
                lemma_lying_tec_fits(points, conjugate_tec@);
            }
            let reduced_conjugate = conjugate_tec.remove_redundant_translators();
            proof {
                lemma_reduction_is_tec(points, conjugate_tec@, reduced_conjugate@);
            }
            let conjugate = stats_of(reduced_conjugate, point_set);
            let ghost second = conjugate@;
            best = Cosiatec::<A>::better_of(best, conjugate, Ghost(candidates));
            proof {
                candidates = candidates.push(second);
                let fewer = views.subrange(0, k as int);
                let more = views.subrange(0, k + 1);
                assert(more =~= fewer.push(tec@));
                assert(candidates.len() == 2 * more.len());
                assert forall|x: int| 0 <= x < more.len() implies is_reduction_of(
                    #[trigger] more[x],
                    candidates[2 * x].tec,
                ) && is_stats_of(points, candidates[2 * x].tec, candidates[2 * x]) by {
                    if x < fewer.len() {
                        assert(more[x] == fewer[x]);
                        assert(candidates[2 * x] == before[2 * x]);
                    }
                }
                assert forall|x: int| 0 <= x < more.len() implies is_reduction_of(
                    conjugate_of(#[trigger] more[x]),
                    candidates[2 * x + 1].tec,
                ) && is_stats_of(points, candidates[2 * x + 1].tec, candidates[2 * x + 1]) by {
                    if x < fewer.len() {
                        assert(more[x] == fewer[x]);
                        assert(candidates[2 * x + 1] == before[2 * x + 1]);
                    }
                }
            }
            k += 1;
        }
        proof {
            assert(views.subrange(0, k as int) =~= views);
            assert(are_candidates_of(points, views, candidates));
        }
        best
    }

    /// Returns the candidate if it is better than the best so far, or if
    /// there is no best so far, and otherwise the best so far.
    fn better_of(best: Option<TecStats>, candidate: TecStats, candidates: Ghost<Seq<TecStatsView>>) -> (chosen:
        Option<TecStats>)
        requires
            best_of_scan(candidates@) == match best {
                Some(stats) => Some(stats@),
                None => None::<TecStatsView>,
            },
        ensures
            best_of_scan(candidates@.push(candidate@)) == match chosen {
                Some(stats) => Some(stats@),
                None => None::<TecStatsView>,
            },
            chosen.is_some(),
            chosen.unwrap() == candidate || (best.is_some() && chosen.unwrap() == best.unwrap()),
    {
        proof {
            assert(candidates@.push(candidate@).drop_last() =~= candidates@);
        }
        match best {
            None => Some(candidate),
            Some(stats) => {
                if candidate.is_better_than(&stats) {
                    Some(candidate)
                } else {
                    Some(stats)
                }
            },
        }
    }
}

/// A part of a point set whose differences fit has differences that fit.
pub proof fn lemma_part_differences_fit(part: Seq<Point2Di64>, points: Seq<Point2Di64>)
    requires
        differences_fit(points),
        is_part_of(part, points),
    ensures
        differences_fit(part),
{
    assert forall|i: int, j: int| 0 <= i < part.len() && 0 <= j < part.len() implies (
    #[trigger] part[j]).can_sub(#[trigger] part[i]) by {
        assert(points.contains(part[i]));
        assert(points.contains(part[j]));
        let a = choose|a: int| 0 <= a < points.len() && points[a] == part[i];
        let b = choose|b: int| 0 <= b < points.len() && points[b] == part[j];
        assert(points[b].can_sub(points[a]));
    }
}

/// What is left of a part of the points, after a covered set is taken out
/// of it, is a part of the points.
proof fn lemma_rest_is_part(
    rest: Seq<Point2Di64>,
    left: Seq<Point2Di64>,
    covered: Seq<Point2Di64>,
    points: Seq<Point2Di64>,
)
    requires
        is_part_of(left, points),
        is_difference(rest, left, covered),
    ensures
        is_part_of(rest, points),
{
    assert forall|i: int| 0 <= i < rest.len() implies points.contains(#[trigger] rest[i]) by {
        assert(rest.contains(rest[i]));
        assert(left.contains(rest[i]));
        let a = choose|a: int| 0 <= a < left.len() && left[a] == rest[i];
        assert(points.contains(left[a]));
    }
}

/// A TEC that lies within a part of the points lies within the points.
proof fn lemma_tec_in_whole(part: Seq<Point2Di64>, points: Seq<Point2Di64>, tec: TecView)
    requires
        is_part_of(part, points),
        is_tec_in(part, tec),
    ensures
        is_tec_in(points, tec),
{
    assert forall|i: int| 0 <= i < tec.pattern.len() implies points.contains(
        #[trigger] tec.pattern[i],
    ) by {
        assert(part.contains(tec.pattern[i]));
        let a = choose|a: int| 0 <= a < part.len() && part[a] == tec.pattern[i];
        assert(points.contains(part[a]));
    }
    assert forall|k: int| 0 <= k < tec.translators.len() implies (#[trigger] tec.translators[k])
        != Point2Di64::zero() && is_translator_of(points, tec.pattern, tec.translators[k]) by {
        assert(is_translator_of(part, tec.pattern, tec.translators[k]));
        assert forall|i: int| 0 <= i < tec.pattern.len() implies translated_in(
            points,
            #[trigger] tec.pattern[i],
            tec.translators[k],
        ) by {
            assert(translated_in(part, tec.pattern[i], tec.translators[k]));
            let a = choose|a: int|
                0 <= a < part.len() && is_sum(tec.pattern[i], tec.translators[k], #[trigger] part[a]);
            assert(points.contains(part[a]));
            let b = choose|b: int| 0 <= b < points.len() && points[b] == part[a];
            assert(is_sum(tec.pattern[i], tec.translators[k], points[b]));
        }
    }
}

/// A TEC within the points lies in the points.
pub proof fn lemma_tec_lies_in(points: Seq<Point2Di64>, tec: TecView)
    requires
        is_tec_in(points, tec),
    ensures
        lies_in(points, tec),
{
}

/// The translators of a TEC that lies in the points can move its pattern.
pub proof fn lemma_lying_tec_fits(points: Seq<Point2Di64>, tec: TecView)
    requires
        lies_in(points, tec),
    ensures
        translators_fit(tec.pattern, tec.translators),
{
    assert forall|k: int| 0 <= k < tec.translators.len() implies can_translate(
        tec.pattern,
        #[trigger] tec.translators[k],
    ) by {
        assert(is_translator_of(points, tec.pattern, tec.translators[k]));
        assert forall|i: int| 0 <= i < tec.pattern.len() implies (#[trigger] tec.pattern[i]).can_add(
            tec.translators[k],
        ) by {
            assert(translated_in(points, tec.pattern[i], tec.translators[k]));
        }
    }
}

/// A TEC that lies in points whose differences fit can be conjugated.
pub proof fn lemma_tec_can_conjugate(points: Seq<Point2Di64>, tec: TecView)
    requires
        differences_fit(points),
        lies_in(points, tec),
    ensures
        can_conjugate(tec.pattern, tec.translators),
{
    assert forall|k: int| 0 <= k < tec.translators.len() implies tec.pattern[0].can_add(
        #[trigger] tec.translators[k],
    ) by {
        assert(is_translator_of(points, tec.pattern, tec.translators[k]));
        assert(translated_in(points, tec.pattern[0], tec.translators[k]));
    }
    assert forall|i: int| 0 <= i < tec.pattern.len() implies (#[trigger] tec.pattern[i]).can_sub(
        tec.pattern[0],
    ) by {
        assert(points.contains(tec.pattern[i]));
        assert(points.contains(tec.pattern[0]));
        let a = choose|a: int| 0 <= a < points.len() && points[a] == tec.pattern[i];
        let b = choose|b: int| 0 <= b < points.len() && points[b] == tec.pattern[0];
        assert(points[a].can_sub(points[b]));
    }
}

/// The conjugate of a TEC that lies in the points lies in the points.
pub proof fn lemma_conjugate_lies_in(points: Seq<Point2Di64>, tec: TecView)
    requires
        differences_fit(points),
        lies_in(points, tec),
        can_conjugate(tec.pattern, tec.translators),
    ensures
        lies_in(points, conjugate_of(tec)),
{
    let conjugate = conjugate_of(tec);
    let first = tec.pattern[0];
    assert forall|j: int| 0 <= j < conjugate.pattern.len() implies points.contains(
        #[trigger] conjugate.pattern[j],
    ) by {
        if j == 0 {
            assert(points.contains(tec.pattern[0]));
        } else {
            assert(is_translator_of(points, tec.pattern, tec.translators[j - 1]));
            assert(translated_in(points, tec.pattern[0], tec.translators[j - 1]));
            let a = choose|a: int|
                0 <= a < points.len() && is_sum(first, tec.translators[j - 1], #[trigger] points[a]);
            assert(points[a] == conjugate.pattern[j]);
        }
    }
    assert forall|i: int| 0 <= i < conjugate.translators.len() implies is_translator_of(
        points,
        conjugate.pattern,
        #[trigger] conjugate.translators[i],
    ) by {
        let u = conjugate.translators[i];
        assert(tec.pattern[i + 1].can_sub(first));
        assert forall|j: int| 0 <= j < conjugate.pattern.len() implies translated_in(
            points,
            #[trigger] conjugate.pattern[j],
            u,
        ) by {
            if j == 0 {
                assert(points.contains(tec.pattern[i + 1]));
                let a = choose|a: int| 0 <= a < points.len() && points[a] == tec.pattern[i + 1];
                assert(is_sum(first, u, points[a]));
            } else {
                assert(is_translator_of(points, tec.pattern, tec.translators[j - 1]));
                assert(translated_in(points, tec.pattern[i + 1], tec.translators[j - 1]));
                let a = choose|a: int|
                    0 <= a < points.len() && is_sum(
                        tec.pattern[i + 1],
                        tec.translators[j - 1],
                        #[trigger] points[a],
                    );
                assert(first.can_add(tec.translators[j - 1]));
                assert(is_sum(conjugate.pattern[j], u, points[a]));
            }
        }
    }
}

/// A TEC that lies in the points is, without its redundant translators, a
/// TEC within the points whose translators can move its pattern.
pub proof fn lemma_reduction_is_tec(points: Seq<Point2Di64>, tec: TecView, reduced: TecView)
    requires
        lies_in(points, tec),
        is_reduction_of(tec, reduced),
    ensures
        is_tec_in(points, reduced),
        translators_fit(reduced.pattern, reduced.translators),
{
    assert forall|k: int| 0 <= k < reduced.translators.len() implies (
    #[trigger] reduced.translators[k]) != Point2Di64::zero() && is_translator_of(
        points,
        reduced.pattern,
        reduced.translators[k],
    ) by {
        let t = reduced.translators[k];
        assert(reduced.translators.contains(t));
        assert(tec.translators.contains(t));
        let m = choose|m: int| 0 <= m < tec.translators.len() && tec.translators[m] == t;
        assert(is_translator_of(points, tec.pattern, tec.translators[m]));
        if t == Point2Di64::zero() {
            let p = choose|p: Point2Di64| #[trigger]
                covers(tec.pattern, tec.translators, p) && !covers_without(
                    tec.pattern,
                    tec.translators,
                    t,
                    p,
                );
            if !tec.pattern.contains(p) {
                let (i, x) = choose|i: int, x: int|
                    0 <= i < tec.pattern.len() && 0 <= x < tec.translators.len() && is_sum(
                        #[trigger] tec.pattern[i],
                        #[trigger] tec.translators[x],
                        p,
                    );
                if tec.translators[x] == t {
                    assert(p == tec.pattern[i]);
                    assert(tec.pattern.contains(p));
                } else {
                    assert(covers_without(tec.pattern, tec.translators, t, p));
                }
            }
        }
    }
    lemma_tec_lies_in(points, reduced);
    lemma_lying_tec_fits(points, reduced);
}

} // verus!
