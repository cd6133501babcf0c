//! The SIATECCompress algorithm: ranks all TECs and their conjugates once
//! and takes, in the order of the ranking, every TEC that covers more new
//! points than it takes to write it down.

use crate::discovery::algorithm::finds_patterns_in;
use crate::discovery::algorithm::TecAlgorithm;
use crate::discovery::algorithm::TecOutput;
use crate::discovery::cosiatec::conjugate_of;
use crate::discovery::cosiatec::is_reduction_of;
use crate::discovery::cosiatec::lemma_conjugate_lies_in;
use crate::discovery::cosiatec::lemma_lying_tec_fits;
use crate::discovery::cosiatec::lemma_reduction_is_tec;
use crate::discovery::cosiatec::lemma_tec_can_conjugate;
use crate::discovery::cosiatec::lemma_tec_lies_in;
use crate::discovery::heuristic::is_better;
use crate::discovery::heuristic::is_stats_of;
use crate::discovery::heuristic::size_of_tec;
use crate::discovery::heuristic::stats_of;
use crate::discovery::heuristic::TecStats;
use crate::discovery::heuristic::TecStatsView;
use crate::point_set::mtp::translated_in;
use crate::point_set::pattern::Pattern;
use crate::point_set::point::is_sum;
use crate::point_set::point::Point2Di64;
use crate::point_set::set::differences_fit;
use crate::point_set::set::is_difference;
use crate::point_set::set::is_union;
use crate::point_set::set::strictly_ascending;
use crate::point_set::set::PointSet;
use crate::point_set::tec::is_tec_in;
use crate::point_set::tec::is_translator_of;
use crate::point_set::tec::tec_views;
use crate::point_set::tec::Tec;
use crate::point_set::tec::TecView;
use vstd::prelude::*;

verus! {

/// The views of the given TECs with their values, in the same order.
pub open spec fn stats_views(stats: Seq<TecStats>) -> Seq<TecStatsView> {
    Seq::new(stats.len(), |k: int| stats[k]@)
}

/// The ranking with one more candidate: the candidate moves from the end
/// towards the front, past every TEC that it is better than, until it meets
/// one that it is not better than.
pub open spec fn inserted(ranking: Seq<TecStatsView>, candidate: TecStatsView) -> Seq<TecStatsView>
    decreases ranking.len(),
{
    if ranking.len() > 0 && is_better(candidate, ranking.last()) {
        inserted(ranking.drop_last(), candidate).push(ranking.last())
    } else {
        ranking.push(candidate)
    }
}

/// The ranking of the first `count` candidates: each is inserted in turn
/// into the ranking of those before it.
pub open spec fn ranked(candidates: Seq<TecStatsView>, count: int) -> Seq<TecStatsView>
    decreases count,
{
    if count <= 0 {
        Seq::empty()
    } else {
        inserted(ranked(candidates, count - 1), candidates[count - 1])
    }
}

/// The candidates that the TECs give rise to: first each TEC without its
/// redundant translators, then the conjugate of each TEC without its
/// redundant translators, each with its values in the point set.
pub open spec fn are_ranking_candidates(
    points: Seq<Point2Di64>,
    tecs: Seq<TecView>,
    candidates: Seq<TecStatsView>,
) -> bool {
    &&& candidates.len() == 2 * tecs.len()
    &&& forall|k: int|
        0 <= k < tecs.len() ==> is_reduction_of(#[trigger] tecs[k], candidates[k].tec)
            && is_stats_of(points, candidates[k].tec, candidates[k])
    &&& forall|k: int|
        0 <= k < tecs.len() ==> is_reduction_of(
            conjugate_of(#[trigger] tecs[k]),
            candidates[tecs.len() + k].tec,
        ) && is_stats_of(points, candidates[tecs.len() + k].tec, candidates[tecs.len() + k])
}

/// One step of the encoding: the TEC is accepted if the number of points
/// that it covers beyond the cover so far exceeds the number of its points
/// and translators, and then the points that it covers join the cover.
pub open spec fn is_encoding_step(
    stats: TecStatsView,
    cover: Seq<Point2Di64>,
    accepted: bool,
    next: Seq<Point2Di64>,
) -> bool {
    exists|fresh: Seq<Point2Di64>|
        #![trigger is_difference(fresh, stats.covered, cover)]
        is_difference(fresh, stats.covered, cover) && accepted == (fresh.len() > size_of_tec(
            stats.tec,
        )) && if accepted {
            is_union(next, cover, stats.covered)
        } else {
            next == cover
        }
}

/// The first steps of the encoding: `covers` holds the cover before each
/// step and after the last, `accepted` what each step decided. The steps
/// end with the ranking, or with the first accepted TEC that completes the
/// cover.
pub open spec fn is_encoding_trace(
    points: Seq<Point2Di64>,
    ranking: Seq<TecStatsView>,
    covers: Seq<Seq<Point2Di64>>,
    accepted: Seq<bool>,
) -> bool {
    &&& accepted.len() <= ranking.len()
    &&& covers.len() == accepted.len() + 1
    &&& covers[0].len() == 0
    &&& forall|k: int|
        0 <= k < accepted.len() ==> is_encoding_step(
            ranking[k],
            covers[k],
            #[trigger] accepted[k],
            covers[k + 1],
        )
    &&& forall|k: int|
        0 <= k < accepted.len() - 1 ==> !(#[trigger] accepted[k] && covers[k + 1].len()
            == points.len())
}

/// The trace is complete: it ends with the ranking, or with an accepted
/// TEC that completes the cover.
pub open spec fn is_complete_trace(
    points: Seq<Point2Di64>,
    ranking: Seq<TecStatsView>,
    covers: Seq<Seq<Point2Di64>>,
    accepted: Seq<bool>,
) -> bool {
    ||| accepted.len() == ranking.len()
    ||| accepted.len() > 0 && accepted.last() && covers.last().len() == points.len()
}

/// The accepted TECs among the first `count` of the ranking, in its order.
pub open spec fn accepted_tecs(
    ranking: Seq<TecStatsView>,
    accepted: Seq<bool>,
    count: int,
) -> Seq<TecView>
    decreases count,
{
    if count <= 0 {
        Seq::empty()
    } else if accepted[count - 1] {
        accepted_tecs(ranking, accepted, count - 1).push(ranking[count - 1].tec)
    } else {
        accepted_tecs(ranking, accepted, count - 1)
    }
}

/// The TEC that stands for the points left: its pattern is the first of
/// them, and its translators lead from the first to each of the others.
pub open spec fn is_residual_tec(residual: Seq<Point2Di64>, tec: TecView) -> bool {
    &&& residual.len() > 0
    &&& tec.pattern == seq![residual[0]]
    &&& tec.translators.len() == residual.len() - 1
    &&& forall|i: int|
        0 <= i < tec.translators.len() ==> is_sum(
            residual[0],
            #[trigger] tec.translators[i],
            residual[i + 1],
        )
}

/// The TECs encode the points: they are the accepted TECs of a complete
/// trace of the encoding and, where the cover at the end of the trace
/// leaves points out, the TEC that stands for the points left.
pub open spec fn is_encoding(
    points: Seq<Point2Di64>,
    ranking: Seq<TecStatsView>,
    tecs: Seq<TecView>,
) -> bool {
    exists|covers: Seq<Seq<Point2Di64>>, accepted: Seq<bool>, residual: Seq<Point2Di64>|
        #![trigger is_encoding_run(points, ranking, covers, accepted, residual, tecs)]
        is_encoding_run(points, ranking, covers, accepted, residual, tecs)
}

/// One run of the encoding, with its trace and the points left at its end.
pub open spec fn is_encoding_run(
    points: Seq<Point2Di64>,
    ranking: Seq<TecStatsView>,
    covers: Seq<Seq<Point2Di64>>,
    accepted: Seq<bool>,
    residual: Seq<Point2Di64>,
    tecs: Seq<TecView>,
) -> bool {
    &&& is_encoding_trace(points, ranking, covers, accepted)
    &&& is_complete_trace(points, ranking, covers, accepted)
    &&& is_difference(residual, points, covers.last())
    &&& if residual.len() == 0 {
        tecs == accepted_tecs(ranking, accepted, accepted.len() as int)
    } else {
        tecs.len() > 0 && tecs.drop_last() == accepted_tecs(
            ranking,
            accepted,
            accepted.len() as int,
        ) && is_residual_tec(residual, tecs.last())
    }
}

/// What SIATECCompress produces: the encoding of the points by the ranking
/// of the candidates that the TECs of the points give rise to.
pub open spec fn is_compress_result<A: TecAlgorithm>(
    algorithm: A,
    points: Seq<Point2Di64>,
    tecs: Seq<TecView>,
) -> bool {
    exists|found: Seq<TecView>, candidates: Seq<TecStatsView>|
        #![trigger are_ranking_candidates(points, found, candidates)]
        algorithm.produces(points, found) && are_ranking_candidates(points, found, candidates)
            && is_encoding(points, ranked(candidates, candidates.len() as int), tecs)
}

/// All TECs of the ranking lie within the points.
pub open spec fn ranking_within(points: Seq<Point2Di64>, ranking: Seq<TecStatsView>) -> bool {
    forall|k: int| 0 <= k < ranking.len() ==> is_tec_in(points, (#[trigger] ranking[k]).tec)
}

/// Implements the SIATECCompress algorithm, on top of an algorithm that
/// computes the TECs to choose from.
pub struct SiatecCompress<A: TecAlgorithm> {
    /// The algorithm that computes the TEC candidates.
    pub tec_algorithm: A,
}

impl<A: TecAlgorithm> TecAlgorithm for SiatecCompress<A> {
    open spec fn accepts(&self, points: Seq<Point2Di64>) -> bool {
        differences_fit(points) && self.tec_algorithm.accepts(points) && finds_patterns_in(
            self.tec_algorithm,
            points,
        )
    }

    open spec fn produces(&self, points: Seq<Point2Di64>, tecs: Seq<TecView>) -> bool {
        is_compress_result(self.tec_algorithm, points, tecs)
    }

    open spec fn gives_patterns(&self) -> bool {
        true
    }

    fn compute_tecs(&self, point_set: &PointSet) -> (tecs: Vec<Tec>) {
        let ghost points = point_set@;
        let found = self.tec_algorithm.compute_tecs(point_set);
        let ghost views = tec_views(found@);
        let ghost candidates: Seq<TecStatsView> = Seq::empty();
        let mut tec_stats: Vec<TecStats> = Vec::new();
        let count = found.len();
        proof {
            assert(stats_views(tec_stats@) =~= ranked(candidates, 0));
            assert forall|x: int| 0 <= x < found@.len() implies is_tec_in(
                points,
                (#[trigger] found@[x])@,
            ) by {
                assert(views[x] == found@[x]@);
                assert(self.tec_algorithm.produces(points, views));
            }
        }
        let mut k: usize = 0;
        while k < count
            invariant
                k <= count,
                count == found@.len(),
                points == point_set@,
                views == tec_views(found@),
                differences_fit(points),
                forall|x: int| 0 <= x < found@.len() ==> is_tec_in(points, (#[trigger] found@[x])@),
                candidates.len() == k,
                forall|x: int|
                    0 <= x < k ==> is_reduction_of(views[x], (#[trigger] candidates[x]).tec)
                        && is_stats_of(points, candidates[x].tec, candidates[x]),
                stats_views(tec_stats@) == ranked(candidates, k as int),
                ranking_within(points, stats_views(tec_stats@)),
            decreases count - k,
        {
            let tec = &found[k];
            proof {
                assert(is_tec_in(points, found@[k as int]@));
                lemma_tec_lies_in(points, tec@);
                lemma_lying_tec_fits(points, tec@);
            }
            let reduced = tec.remove_redundant_translators();
            proof {
                lemma_reduction_is_tec(points, tec@, reduced@);
            }
            let candidate = stats_of(reduced, point_set);
            proof {
                let longer = candidates.push(candidate@);
                lemma_ranked_prefix(candidates, longer, k as int);
                candidates = longer;
            }
            SiatecCompress::<A>::insert_ranked(&mut tec_stats, candidate, Ghost(points));
            k += 1;
        }
        let mut k: usize = 0;
        while k < count
            invariant
                k <= count,
                count == found@.len(),
                points == point_set@,
                views == tec_views(found@),
                differences_fit(points),
                forall|x: int| 0 <= x < found@.len() ==> is_tec_in(points, (#[trigger] found@[x])@),
                candidates.len() == count + k,
                forall|x: int|
                    0 <= x < count ==> is_reduction_of(views[x], (#[trigger] candidates[x]).tec)
                        && is_stats_of(points, candidates[x].tec, candidates[x]),
                forall|x: int|
                    0 <= x < k ==> is_reduction_of(
                        conjugate_of(views[x]),
                        (#[trigger] candidates[count + x]).tec,
                    ) && is_stats_of(points, candidates[count + x].tec, candidates[count + x]),
                stats_views(tec_stats@) == ranked(candidates, count + k),
                ranking_within(points, stats_views(tec_stats@)),
            decreases count - k,
        {
            let tec = &found[k];
            proof {
                assert(is_tec_in(points, found@[k as int]@));
                lemma_tec_lies_in(points, tec@);
                lemma_tec_can_conjugate(points, tec@);
            }
            let conjugate_tec = tec.conjugate();
            proof {
                lemma_conjugate_lies_in(points, tec@);
                lemma_lying_tec_fits(points, conjugate_tec@);
            }
            let reduced = conjugate_tec.remove_redundant_translators();
            proof {
                lemma_reduction_is_tec(points, conjugate_tec@, reduced@);
            }
            let candidate = stats_of(reduced, point_set);
            let ghost before = candidates;
            proof {
                let longer = candidates.push(candidate@);
                lemma_ranked_prefix(candidates, longer, count + k);
                candidates = longer;
                assert forall|x: int| 0 <= x < count implies is_reduction_of(
                    views[x],
                    (#[trigger] candidates[x]).tec,
                ) && is_stats_of(points, candidates[x].tec, candidates[x]) by {
                    assert(candidates[x] == before[x]);
                }
                assert forall|x: int| 0 <= x < k + 1 implies is_reduction_of(
                    conjugate_of(views[x]),
                    (#[trigger] candidates[count + x]).tec,
                ) && is_stats_of(points, candidates[count + x].tec, candidates[count + x]) by {
                    if x < k {
                        assert(candidates[count + x] == before[count + x]);
                    }
                }
            }
            SiatecCompress::<A>::insert_ranked(&mut tec_stats, candidate, Ghost(points));
            k += 1;
        }
        let tecs = SiatecCompress::<A>::compute_encoding(&tec_stats, point_set);
        proof {
            assert(are_ranking_candidates(points, views, candidates));
            assert(is_compress_result(self.tec_algorithm, points, tec_views(tecs@)));
        }
        tecs
    }

    fn compute_tecs_to_output<O: TecOutput>(&self, point_set: &PointSet, on_output: &mut O) {
        let tecs = self.compute_tecs(point_set);
        let ghost views = tec_views(tecs@);
        let ghost emitted: Seq<TecView> = Seq::empty();
        assert(old(on_output).received() + emitted =~= old(on_output).received());
        let mut k: usize = 0;
        while k < tecs.len()
            invariant
                k <= tecs@.len(),
                views == tec_views(tecs@),
                on_output.received() == old(on_output).received() + emitted,
                emitted == views.subrange(0, k as int),
            decreases tecs@.len() - k,
        {
            let tec = tecs[k].copy();
            proof {
                assert(tec@ == views[k as int]);
                assert((old(on_output).received() + emitted).push(tec@) =~= old(
                    on_output,
                ).received() + emitted.push(tec@));
                assert(emitted.push(tec@) =~= views.subrange(0, k + 1));
                emitted = emitted.push(tec@);
            }
            on_output.output(tec);
            k += 1;
        }
        proof {
            assert(views.subrange(0, k as int) =~= views);
            assert(self.produces(point_set@, views));
            assert forall|x: int| 0 <= x < views.len() implies is_tec_in(
                point_set@,
                #[trigger] views[x],
            ) by {
                assert(is_tec_in(point_set@, tecs@[x]@));
            }
        }
    }
}

impl<A: TecAlgorithm> SiatecCompress<A> {
    /// Creates a new instance of SIATECCompress that uses the given
    /// TEC-algorithm for computing the TEC candidates.
    pub fn with(tec_algorithm: A) -> (compress: SiatecCompress<A>)
        ensures
            compress.tec_algorithm == tec_algorithm,
    {
        SiatecCompress { tec_algorithm }
    }

    /// Inserts a candidate into the ranking: before every TEC at the end of
    /// the ranking that it is better than.
    fn insert_ranked(ranking: &mut Vec<TecStats>, candidate: TecStats, points: Ghost<Seq<Point2Di64>>)
        requires
            ranking_within(points@, stats_views(old(ranking)@)),
            is_tec_in(points@, candidate@.tec),
        ensures
            stats_views(final(ranking)@) == inserted(stats_views(old(ranking)@), candidate@),
            ranking_within(points@, stats_views(final(ranking)@)),
    {
        let ghost before = stats_views(ranking@);
        let mut position: usize = ranking.len();
        while position > 0 && candidate.is_better_than(&ranking[position - 1])
            invariant
                position <= ranking@.len(),
                ranking@ == old(ranking)@,
                before == stats_views(ranking@),
                forall|j: int| position <= j < before.len() ==> is_better(candidate@, #[trigger] before[j]),
            decreases position,
        {
            assert(before[position - 1] == ranking@[position - 1]@);
            position -= 1;
        }
        proof {
            if position > 0 {
                assert(before[position - 1] == ranking@[position - 1]@);
            }
            lemma_inserted_at(before, candidate@, position as int);
        }
        ranking.insert(position, candidate);
        proof {
            let after = stats_views(ranking@);
            assert(after =~= before.subrange(0, position as int).push(candidate@) + before.subrange(
                position as int,
                before.len() as int,
            ));
            assert forall|k: int| 0 <= k < after.len() implies is_tec_in(
                points@,
                (#[trigger] after[k]).tec,
            ) by {
                if k < position {
                    assert(after[k] == before[k]);
                } else if k > position {
                    assert(after[k] == before[k - 1]);
                }
            }
        }
    }

    /// Computes the encoding: takes from the ranked TECs each one that
    /// covers more new points than it has points and translators, until
    /// all points are covered, and adds a TEC for the points that stay
    /// uncovered.
    pub fn compute_encoding(tec_stats: &Vec<TecStats>, point_set: &PointSet) -> (tec_cover: Vec<Tec>)
        requires
            differences_fit(point_set@),
            ranking_within(point_set@, stats_views(tec_stats@)),
        ensures
            is_encoding(point_set@, stats_views(tec_stats@), tec_views(tec_cover@)),
            forall|k: int|
                0 <= k < tec_cover@.len() ==> is_tec_in(point_set@, (#[trigger] tec_cover@[k])@),
    {
        proof {
            use_type_invariant(point_set);
        }
        let ghost points = point_set@;
        let ghost ranking = stats_views(tec_stats@);
        let mut total_cover = PointSet::new(Vec::new());
        let mut tec_cover: Vec<Tec> = Vec::new();
        let ghost covers: Seq<Seq<Point2Di64>> = seq![total_cover@];
        let ghost accepted: Seq<bool> = Seq::empty();
        proof {
            if total_cover@.len() > 0 {
                assert(total_cover@.contains(total_cover@[0]));
            }
            assert(tec_views(tec_cover@) =~= accepted_tecs(ranking, accepted, 0));
        }
        let mut complete = false;
        let mut k: usize = 0;
        while k < tec_stats.len() && !complete
            invariant
                k <= tec_stats@.len(),
                points == point_set@,
                ranking == stats_views(tec_stats@),
                ranking_within(points, ranking),
                accepted.len() == k,
                covers.last() == total_cover@,
                is_encoding_trace(points, ranking, covers, accepted),
                complete ==> k > 0 && accepted.last() && covers.last().len() == points.len(),
                !complete && k > 0 ==> !(accepted.last() && covers.last().len() == points.len()),
                tec_views(tec_cover@) == accepted_tecs(ranking, accepted, k as int),
                forall|x: int|
                    0 <= x < tec_cover@.len() ==> is_tec_in(points, (#[trigger] tec_cover@[x])@),
            decreases tec_stats@.len() - k, !complete as int,
        {
            let tec_stat = &tec_stats[k];
            proof {
                assert(ranking[k as int] == tec_stat@);
                assert(is_tec_in(points, ranking[k as int].tec));
            }
            let cov = &tec_stat.covered_set;
            let new_points = cov.difference(&total_cover);
            let pat_size = tec_stat.tec.pattern.len();
            let transl_size = tec_stat.tec.translators.len();
            let tec_repr_size = if pat_size > usize::MAX - transl_size {
                usize::MAX
            } else {
                pat_size + transl_size
            };
            let ghost cover_before = total_cover@;
            let ghost tecs_before = tec_views(tec_cover@);
            let ghost fresh = new_points@;
            let accept = new_points.len() > tec_repr_size;
            if accept {
                tec_cover.push(tec_stat.tec.copy());
                total_cover = total_cover.union(cov);
                if total_cover.len() == point_set.len() {
                    complete = true;
                }
            }
            proof {
                let more_covers = covers.push(total_cover@);
                let more_accepted = accepted.push(accept);
                assert(is_difference(fresh, ranking[k as int].covered, cover_before));
                assert(tec_repr_size == size_of_tec(ranking[k as int].tec));
                assert(is_encoding_step(ranking[k as int], cover_before, accept, total_cover@));
                assert forall|x: int| 0 <= x < more_accepted.len() implies is_encoding_step(
                    ranking[x],
                    more_covers[x],
                    #[trigger] more_accepted[x],
                    more_covers[x + 1],
                ) by {
                    if x < accepted.len() {
                        assert(more_covers[x] == covers[x]);
                        assert(more_covers[x + 1] == covers[x + 1]);
                        assert(more_accepted[x] == accepted[x]);
                    }
                }
                assert forall|x: int| 0 <= x < more_accepted.len() - 1 implies !(
                #[trigger] more_accepted[x] && more_covers[x + 1].len() == points.len()) by {
                    assert(more_accepted[x] == accepted[x]);
                    assert(more_covers[x + 1] == covers[x + 1]);
                    if x < accepted.len() - 1 {
                        assert(!(accepted[x] && covers[x + 1].len() == points.len()));
                    }
                }
                lemma_accepted_step(ranking, accepted, more_accepted, k as int);
                if accept {
                    assert(tec_views(tec_cover@) =~= tecs_before.push(ranking[k as int].tec));
                    assert forall|x: int| 0 <= x < tec_cover@.len() implies is_tec_in(
                        points,
                        (#[trigger] tec_cover@[x])@,
                    ) by {
                        if x < tecs_before.len() {
                            assert(tec_views(tec_cover@)[x] == tecs_before[x]);
                        }
                    }
                }
                covers = more_covers;
                accepted = more_accepted;
            }
            k += 1;
        }
        // Add any remaining residual points as a TEC
        let residual_points = point_set.difference(&total_cover);
        let ghost chosen = tec_views(tec_cover@);
        if residual_points.len() > 0 {
            let first = residual_points[0];
            let mut first_point: Vec<Point2Di64> = Vec::new();
            first_point.push(first);
            let pattern = Pattern::from_points(first_point);
            let mut translators: Vec<Point2Di64> = Vec::new();
            let ghost residual = residual_points@;
            proof {
                assert forall|i: int| 0 <= i < residual.len() implies points.contains(
                    #[trigger] residual[i],
                ) by {
                    assert(residual.contains(residual[i]));
                }
            }
            let mut i: usize = 1;
            while i < residual_points.len()
                invariant
                    1 <= i <= residual.len(),
                    residual == residual_points@,
                    first == residual[0],
                    differences_fit(points),
                    strictly_ascending(residual),
                    forall|x: int| 0 <= x < residual.len() ==> points.contains(#[trigger] residual[x]),
                    translators@.len() == i - 1,
                    forall|x: int|
                        0 <= x < i - 1 ==> is_sum(first, #[trigger] translators@[x], residual[x + 1]),
                decreases residual.len() - i,
            {
                proof {
                    assert(points.contains(residual[i as int]));
                    assert(points.contains(residual[0]));
                    let a = choose|a: int| 0 <= a < points.len() && points[a] == residual[i as int];
                    let b = choose|b: int| 0 <= b < points.len() && points[b] == residual[0];
                    assert(points[a].can_sub(points[b]));
                }
                translators.push(residual_points[i] - first);
                i += 1;
            }
            let tec = Tec { pattern, translators };
            proof {
                assert(tec@.pattern =~= seq![residual[0]]);
                lemma_residual_tec_is_tec(points, residual, tec@);
            }
            tec_cover.push(tec);
            proof {
                assert(tec_views(tec_cover@).drop_last() =~= chosen);
                assert(is_encoding_run(
                    points,
                    ranking,
                    covers,
                    accepted,
                    residual,
                    tec_views(tec_cover@),
                ));
                assert forall|x: int| 0 <= x < tec_cover@.len() implies is_tec_in(
                    points,
                    (#[trigger] tec_cover@[x])@,
                ) by {
                    if x < chosen.len() {
                        assert(tec_views(tec_cover@)[x] == chosen[x]);
                    }
                }
            }
        } else {
            proof {
                assert(is_encoding_run(
                    points,
                    ranking,
                    covers,
                    accepted,
                    residual_points@,
                    tec_views(tec_cover@),
                ));
            }
        }
        tec_cover
    }
}

/// The ranking of the first `count` candidates does not depend on the
/// candidates after them.
proof fn lemma_ranked_prefix(
    candidates: Seq<TecStatsView>,
    longer: Seq<TecStatsView>,
    count: int,
)
    requires
        0 <= count <= candidates.len(),
        longer.len() >= candidates.len(),
        forall|k: int| 0 <= k < candidates.len() ==> longer[k] == candidates[k],
    ensures
        ranked(longer, count) == ranked(candidates, count),
    decreases count,
{
    if count > 0 {
        lemma_ranked_prefix(candidates, longer, count - 1);
    }
}

/// Where the candidate is better than all TECs from `position` on, and not
/// better than the one before, the ranking with the candidate has it at
/// `position`.
proof fn lemma_inserted_at(ranking: Seq<TecStatsView>, candidate: TecStatsView, position: int)
    requires
        0 <= position <= ranking.len(),
        forall|j: int| position <= j < ranking.len() ==> is_better(candidate, #[trigger] ranking[j]),
        position > 0 ==> !is_better(candidate, ranking[position - 1]),
    ensures
        inserted(ranking, candidate) == ranking.subrange(0, position).push(candidate)
            + ranking.subrange(position, ranking.len() as int),
    decreases ranking.len() - position,
{
    if position < ranking.len() {
        let rest = ranking.drop_last();
        assert(is_better(candidate, ranking[ranking.len() - 1]));
        assert forall|j: int| position <= j < rest.len() implies is_better(
            candidate,
            #[trigger] rest[j],
        ) by {
            assert(rest[j] == ranking[j]);
        }
        if position > 0 {
            assert(rest[position - 1] == ranking[position - 1]);
        }
        lemma_inserted_at(rest, candidate, position);
        assert(rest.subrange(0, position) =~= ranking.subrange(0, position));
        assert((rest.subrange(0, position).push(candidate) + rest.subrange(
            position,
            rest.len() as int,
        )).push(ranking.last()) =~= ranking.subrange(0, position).push(candidate)
            + ranking.subrange(position, ranking.len() as int));
    } else {
        assert(ranking.subrange(0, position) =~= ranking);
        assert(ranking.push(candidate) + ranking.subrange(position, ranking.len() as int)
            =~= ranking.push(candidate));
    }
}

/// How the accepted TECs grow with one more step.
proof fn lemma_accepted_step(
    ranking: Seq<TecStatsView>,
    accepted: Seq<bool>,
    longer: Seq<bool>,
    k: int,
)
    requires
        accepted.len() == k,
        longer.len() == k + 1,
        forall|x: int| 0 <= x < k ==> longer[x] == accepted[x],
    ensures
        accepted_tecs(ranking, longer, k + 1) == if longer[k] {
            accepted_tecs(ranking, accepted, k).push(ranking[k].tec)
        } else {
            accepted_tecs(ranking, accepted, k)
        },
{
    lemma_accepted_prefix(ranking, accepted, longer, k);
}

/// The accepted TECs among the first `count` do not depend on the steps
/// after them.
proof fn lemma_accepted_prefix(
    ranking: Seq<TecStatsView>,
    accepted: Seq<bool>,
    longer: Seq<bool>,
    count: int,
)
    requires
        0 <= count <= accepted.len(),
        longer.len() >= accepted.len(),
        forall|x: int| 0 <= x < accepted.len() ==> longer[x] == accepted[x],
    ensures
        accepted_tecs(ranking, longer, count) == accepted_tecs(ranking, accepted, count),
    decreases count,
{
    if count > 0 {
        lemma_accepted_prefix(ranking, accepted, longer, count - 1);
    }
}

/// The TEC that stands for the points left lies within the points.
proof fn lemma_residual_tec_is_tec(
    points: Seq<Point2Di64>,
    residual: Seq<Point2Di64>,
    tec: TecView,
)
    requires
        strictly_ascending(residual),
        forall|x: int| 0 <= x < residual.len() ==> points.contains(#[trigger] residual[x]),
        residual.len() > 0,
        tec.pattern == seq![residual[0]],
        tec.translators.len() == residual.len() - 1,
        forall|i: int|
            0 <= i < tec.translators.len() ==> is_sum(
                residual[0],
                #[trigger] tec.translators[i],
                residual[i + 1],
            ),
    ensures
        is_tec_in(points, tec),
        is_residual_tec(residual, tec),
{
    assert forall|a: int, b: int| 0 <= a < b < tec.translators.len() implies (
    #[trigger] tec.translators[a]).lex_lt(#[trigger] tec.translators[b]) by {
        assert(residual[a + 1].lex_lt(residual[b + 1]));
        assert(is_sum(residual[0], tec.translators[a], residual[a + 1]));
        assert(is_sum(residual[0], tec.translators[b], residual[b + 1]));
    }
    assert(points.contains(residual[0]));
    assert forall|k: int| 0 <= k < tec.translators.len() implies (#[trigger] tec.translators[k])
        != Point2Di64::zero() && is_translator_of(points, tec.pattern, tec.translators[k]) by {
        assert(residual[0].lex_lt(residual[k + 1]));
        assert(is_sum(residual[0], tec.translators[k], residual[k + 1]));
        assert(points.contains(residual[k + 1]));
        let a = choose|a: int| 0 <= a < points.len() && points[a] == residual[k + 1];
        assert forall|i: int| 0 <= i < tec.pattern.len() implies translated_in(
            points,
            #[trigger] tec.pattern[i],
            tec.translators[k],
        ) by {
            assert(is_sum(tec.pattern[i], tec.translators[k], points[a]));
        }
    }
}

} // verus!
