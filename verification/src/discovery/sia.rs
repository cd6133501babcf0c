//! The SIA algorithm: all maximal translatable patterns of a point set.

use crate::discovery::algorithm::is_extended_by;
use crate::discovery::algorithm::MtpAlgorithm;
use crate::discovery::algorithm::MtpCollector;
use crate::discovery::algorithm::MtpOutput;
use crate::discovery::utilities::entries_ascending;
use crate::discovery::utilities::entry_lt;
use crate::discovery::utilities::sort;
use crate::point_set::mtp::is_mtp_of;
use crate::point_set::mtp::mtp_views;
use crate::point_set::mtp::translated_in;
use crate::point_set::mtp::Mtp;
use crate::point_set::mtp::MtpView;
use crate::point_set::point::is_diff;
use crate::point_set::point::is_sum;
use crate::point_set::point::Point2Di64;
use crate::point_set::set::differences_fit;
use crate::point_set::set::strictly_ascending;
use crate::point_set::set::PointSet;
use vstd::prelude::*;

verus! {

/// The entry holds the difference from the point at its index to a later
/// point.
pub open spec fn is_forward_diff(points: Seq<Point2Di64>, entry: (Point2Di64, usize)) -> bool {
    exists|j: int|
        entry.1 < j < points.len() && is_diff(#[trigger] points[j], points[entry.1 as int], entry.0)
}

/// The entries are, in ascending order and each once, the differences from
/// every point to every later point, each with the index of the point it
/// starts from.
pub open spec fn is_forward_diff_list(
    points: Seq<Point2Di64>,
    entries: Seq<(Point2Di64, usize)>,
) -> bool {
    &&& entries_ascending(entries)
    &&& forall|k: int| 0 <= k < entries.len() ==> is_forward_diff(points, #[trigger] entries[k])
    &&& forall|i: int, j: int|
        0 <= i < j < points.len() ==> #[trigger] has_entry(entries, i, points[i], points[j])
}

/// Some entry holds the difference from `from`, the point at index `i`, to
/// `to`.
pub open spec fn has_entry(
    entries: Seq<(Point2Di64, usize)>,
    i: int,
    from: Point2Di64,
    to: Point2Di64,
) -> bool {
    exists|x: int|
        0 <= x < entries.len() && (#[trigger] entries[x]).1 == i && is_diff(to, from, entries[x].0)
}

/// What SIA produces: one MTP for every vector that leads from a point of
/// the set to a later one, in ascending order of these vectors.
pub open spec fn is_sia_result(points: Seq<Point2Di64>, mtps: Seq<MtpView>) -> bool {
    &&& forall|k: int|
        0 <= k < mtps.len() ==> {
            &&& is_mtp_of(points, (#[trigger] mtps[k]).translator, mtps[k].pattern)
            &&& mtps[k].pattern.len() > 0
            &&& Point2Di64::zero().lex_lt(mtps[k].translator)
        }
    &&& forall|a: int, b: int|
        0 <= a < b < mtps.len() ==> (#[trigger] mtps[a]).translator.lex_lt(
            (#[trigger] mtps[b]).translator,
        )
    &&& forall|i: int, j: int|
        0 <= i < j < points.len() ==> #[trigger] leads_between(mtps, points[i], points[j])
}

/// There are at most as many MTPs as there are pairs of a point and a later
/// point.
pub open spec fn is_within_pair_count(points: Seq<Point2Di64>, mtps: Seq<MtpView>) -> bool {
    2 * mtps.len() <= points.len() * (points.len() - 1)
}

/// The translator of one of the MTPs leads from `from` to `to`.
pub open spec fn leads_between(mtps: Seq<MtpView>, from: Point2Di64, to: Point2Di64) -> bool {
    exists|k: int| 0 <= k < mtps.len() && is_diff(to, from, (#[trigger] mtps[k]).translator)
}

/// Implements the SIA algorithm. The SIA algorithm computes all Maximal
/// Translatable Patterns (MTP) in a given point set.
pub struct Sia {}

impl MtpAlgorithm for Sia {
    open spec fn accepts(&self, points: Seq<Point2Di64>) -> bool {
        differences_fit(points)
    }

    open spec fn produces(&self, points: Seq<Point2Di64>, mtps: Seq<MtpView>) -> bool {
        is_sia_result(points, mtps) && is_within_pair_count(points, mtps)
    }

    /// Computes and returns all MTPs in the given point set.
    fn compute_mtps(&self, point_set: &PointSet) -> (mtps: Vec<Mtp>) {
        let mut collector = MtpCollector { mtps: Vec::new() };
        self.compute_mtps_to_output(point_set, &mut collector);
        proof {
            let found = choose|found: Seq<MtpView>|
                #![trigger self.produces(point_set@, found)]
                self.produces(point_set@, found) && is_extended_by(
                    collector.received(),
                    Seq::<MtpView>::empty(),
                    found,
                );
            assert(mtp_views(Seq::<Mtp>::empty()) =~= Seq::<MtpView>::empty());
            assert(Seq::<MtpView>::empty() + found =~= found);
        }
        collector.mtps
    }

    fn compute_mtps_to_output<O: MtpOutput>(&self, point_set: &PointSet, on_output: &mut O) {
        let forward_diffs = Sia::compute_differences(point_set);
        Sia::partition(point_set, &forward_diffs, on_output);
        proof {
            let found = choose|found: Seq<MtpView>|
                #![trigger is_sia_result(point_set@, found)]
                is_sia_result(point_set@, found) && is_extended_by(
                    on_output.received(),
                    old(on_output).received(),
                    found,
                ) && found.len() <= forward_diffs@.len();
            assert(is_within_pair_count(point_set@, found));
            assert(self.produces(point_set@, found));
        }
    }
}

impl Sia {
    /// Computes the forward differences with the indices required for MTP
    /// computation. The forward differences are sorted in ascending
    /// lexicographical order.
    pub fn compute_differences(point_set: &PointSet) -> (diffs: Vec<(Point2Di64, usize)>)
        requires
            differences_fit(point_set@),
        ensures
            is_forward_diff_list(point_set@, diffs@),
            2 * diffs@.len() == point_set@.len() * (point_set@.len() - 1),
    {
        proof {
            use_type_invariant(point_set);
        }
        let ghost points = point_set@;
        let n = point_set.len();
        let mut diffs: Vec<(Point2Di64, usize)> = Vec::new();
        let mut i: usize = 0;
        while i < n
            invariant
                i <= n,
                2 * diffs@.len() == i * (2 * n - i - 1),
                n == points.len(),
                points == point_set@,
                strictly_ascending(points),
                differences_fit(points),
                forall|k: int| 0 <= k < diffs@.len() ==> is_forward_diff(points, #[trigger] diffs@[k]),
                forall|k: int| 0 <= k < diffs@.len() ==> (#[trigger] diffs@[k]).1 < i,
                forall|a: int, b: int|
                    0 <= a < b < diffs@.len() ==> generated_before(
                        #[trigger] diffs@[a],
                        #[trigger] diffs@[b],
                    ),
                forall|a: int, b: int|
                    0 <= a < i && a < b < n ==> #[trigger] has_entry(
                        diffs@,
                        a,
                        points[a],
                        points[b],
                    ),
            decreases n - i,
        {
            let from = point_set[i];
            let ghost count_before = diffs@.len();
            let mut j: usize = i + 1;
            while j < n
                invariant
                    i < n,
                    i < j <= n,
                    diffs@.len() == count_before + (j - i - 1),
                    n == points.len(),
                    points == point_set@,
                    from == points[i as int],
                    strictly_ascending(points),
                    differences_fit(points),
                    forall|k: int|
                        0 <= k < diffs@.len() ==> is_forward_diff(points, #[trigger] diffs@[k]),
                    forall|k: int| 0 <= k < diffs@.len() ==> (#[trigger] diffs@[k]).1 <= i,
                    forall|k: int|
                        0 <= k < diffs@.len() && (#[trigger] diffs@[k]).1 == i ==> exists|b: int|
                            i < b < j && is_diff(#[trigger] points[b], from, diffs@[k].0),
                    forall|a: int, b: int|
                        0 <= a < b < diffs@.len() ==> generated_before(
                            #[trigger] diffs@[a],
                            #[trigger] diffs@[b],
                        ),
                    forall|a: int, b: int|
                        0 <= a < i && a < b < n ==> #[trigger] has_entry(
                            diffs@,
                            a,
                            points[a],
                            points[b],
                        ),
                    forall|b: int|
                        i < b < j ==> #[trigger] has_entry(diffs@, i as int, from, points[b]),
                decreases n - j,
            {
                let to = point_set[j];
                assert(points[j as int].can_sub(points[i as int]));
                let ghost before = diffs@;
                let entry = (to - from, i);
                diffs.push(entry);
                proof {
                    assert(is_diff(points[j as int], points[i as int], entry.0));
                    assert forall|a: int, b: int| 0 <= a < b < diffs@.len() implies generated_before(
                        #[trigger] diffs@[a],
                        #[trigger] diffs@[b],
                    ) by {
                        if b == before.len() {
                            if before[a].1 == i {
                                let x = choose|x: int|
                                    i < x < j && is_diff(#[trigger] points[x], from, before[a].0);
                                assert(points[x].lex_lt(points[j as int]));
                            }
                        } else {
                            assert(generated_before(before[a], before[b]));
                        }
                    }
                    assert forall|a: int, b: int| 0 <= a < i && a < b < n implies #[trigger] has_entry(
                        diffs@,
                        a,
                        points[a],
                        points[b],
                    ) by {
                        assert(has_entry(before, a, points[a], points[b]));
                        let x = choose|x: int|
                            0 <= x < before.len() && (#[trigger] before[x]).1 == a && is_diff(
                                points[b],
                                points[a],
                                before[x].0,
                            );
                        assert(diffs@[x] == before[x]);
                    }
                    assert forall|b: int| i < b < j + 1 implies #[trigger] has_entry(
                        diffs@,
                        i as int,
                        from,
                        points[b],
                    ) by {
                        if b < j {
                            assert(has_entry(before, i as int, from, points[b]));
                            let x = choose|x: int|
                                0 <= x < before.len() && (#[trigger] before[x]).1 == i && is_diff(
                                    points[b],
                                    from,
                                    before[x].0,
                                );
                            assert(diffs@[x] == before[x]);
                        } else {
                            assert(diffs@[before.len() as int] == entry);
                        }
                    }
                    assert forall|k: int|
                        0 <= k < diffs@.len() && (#[trigger] diffs@[k]).1 == i implies exists|
                        b: int,
                    |
                        i < b < j + 1 && is_diff(#[trigger] points[b], from, diffs@[k].0) by {
                        if k < before.len() {
                            let x = choose|x: int|
                                i < x < j && is_diff(#[trigger] points[x], from, before[k].0);
                            assert(i < x < j + 1 && is_diff(points[x], from, diffs@[k].0));
                        } else {
                            assert(is_diff(points[j as int], from, diffs@[k].0));
                        }
                    }
                }
                j += 1;
            }
            proof {
                lemma_count_step(count_before as int, diffs@.len() as int, i as int, n as int);
            }
            i += 1;
        }
        proof {
            assert(i * (2 * n - i - 1) == n * (n - 1)) by (nonlinear_arith)
                requires
                    i == n,
            ;
            assert forall|a: int, b: int| 0 <= a < b < diffs@.len() implies diffs@[a] != diffs@[b] by {
                assert(generated_before(diffs@[a], diffs@[b]));
            }
        }
        let ghost unsorted = diffs@;
        sort(&mut diffs);
        proof {
            assert forall|k: int| 0 <= k < diffs@.len() implies is_forward_diff(
                points,
                #[trigger] diffs@[k],
            ) by {
                assert(diffs@.contains(diffs@[k]));
                let m = choose|m: int| 0 <= m < unsorted.len() && unsorted[m] == diffs@[k];
                assert(is_forward_diff(points, unsorted[m]));
            }
            assert forall|a: int, b: int| 0 <= a < b < points.len() implies #[trigger] has_entry(
                diffs@,
                a,
                points[a],
                points[b],
            ) by {
                assert(has_entry(unsorted, a, points[a], points[b]));
                let x = choose|x: int|
                    0 <= x < unsorted.len() && (#[trigger] unsorted[x]).1 == a && is_diff(
                        points[b],
                        points[a],
                        unsorted[x].0,
                    );
                assert(unsorted.contains(unsorted[x]));
                assert(diffs@.contains(unsorted[x]));
                let y = choose|y: int| 0 <= y < diffs@.len() && diffs@[y] == unsorted[x];
                assert(diffs@[y].1 == a);
            }
        }
        diffs
    }

    /// Partitions the sorted list of difference-index pairs into MTPs: each
    /// maximal run of equal differences becomes one MTP.
    pub fn partition<O: MtpOutput>(
        point_set: &PointSet,
        forward_diffs: &Vec<(Point2Di64, usize)>,
        on_output: &mut O,
    )
        requires
            is_forward_diff_list(point_set@, forward_diffs@),
        ensures
            exists|mtps: Seq<MtpView>|
                #![trigger is_sia_result(point_set@, mtps)]
                is_sia_result(point_set@, mtps) && is_extended_by(
                    final(on_output).received(),
                    old(on_output).received(),
                    mtps,
                ) && mtps.len() <= forward_diffs@.len(),
    {
        proof {
            use_type_invariant(point_set);
        }
        let ghost points = point_set@;
        let ghost entries = forward_diffs@;
        let ghost emitted: Seq<MtpView> = Seq::empty();
        let m = forward_diffs.len();
        let mut i: usize = 0;
        proof {
            assert(old(on_output).received() + emitted =~= old(on_output).received());
            lemma_nothing_emitted(points, entries);
        }
        while i < m
            invariant
                i <= m,
                m == entries.len(),
                entries == forward_diffs@,
                points == point_set@,
                strictly_ascending(points),
                is_forward_diff_list(points, entries),
                on_output.received() == old(on_output).received() + emitted,
                0 < i < m ==> entries[i - 1].0 != entries[i as int].0,
                emitted_up_to(points, entries, i as int, emitted),
                emitted.len() <= i,
            decreases m - i,
        {
            let mut indices: Vec<usize> = Vec::new();
            let translator = forward_diffs[i].0;
            let mut j: usize = i;
            while j < m && translator == forward_diffs[j].0
                invariant
                    i <= j <= m,
                    i < m,
                    m == entries.len(),
                    entries == forward_diffs@,
                    translator == entries[i as int].0,
                    indices@.len() == j - i,
                    forall|k: int| 0 <= k < j - i ==> indices@[k] == entries[i + k].1,
                    forall|x: int| i <= x < j ==> (#[trigger] entries[x]).0 == translator,
                decreases m - j,
            {
                indices.push(forward_diffs[j].1);
                j += 1;
            }
            proof {
                assert forall|k: int| 0 <= k < indices@.len() implies indices@[k] < points.len() by {
                    assert(is_forward_diff(points, entries[i + k]));
                }
            }
            let pattern = point_set.get_pattern(&indices);
            proof {
                let view = MtpView { translator, pattern: pattern@ };
                lemma_run_emitted(points, entries, i as int, j as int, emitted, pattern@);
                assert((old(on_output).received() + emitted).push(view) =~= old(
                    on_output,
                ).received() + emitted.push(view));
                emitted = emitted.push(view);
            }
            i = j;
            on_output.output(Mtp { translator, pattern });
        }
        proof {
            lemma_all_emitted(points, entries, emitted);
        }
    }
}

/// The number of differences grows by those of one more point: from the
/// point at `i`, one difference leads to each of the points after it.
proof fn lemma_count_step(before: int, after: int, i: int, n: int)
    requires
        0 <= i < n,
        2 * before == i * (2 * n - i - 1),
        after == before + (n - i - 1),
    ensures
        2 * after == (i + 1) * (2 * n - (i + 1) - 1),
{
    assert(i * (2 * n - i - 1) + 2 * (n - i - 1) == (i + 1) * (2 * n - (i + 1) - 1))
        by (nonlinear_arith);
}

/// The order in which the differences are computed: by the index of the
/// point they start from, and for one such point by the difference.
pub open spec fn generated_before(a: (Point2Di64, usize), b: (Point2Di64, usize)) -> bool {
    a.1 < b.1 || (a.1 == b.1 && a.0.lex_lt(b.0))
}

/// What has been produced once the entries before position `i` are dealt
/// with: one MTP for each difference among them, in ascending order.
#[verifier::opaque]
pub closed spec fn emitted_up_to(
    points: Seq<Point2Di64>,
    entries: Seq<(Point2Di64, usize)>,
    i: int,
    emitted: Seq<MtpView>,
) -> bool {
    &&& forall|k: int|
        0 <= k < emitted.len() ==> {
            &&& is_mtp_of(points, (#[trigger] emitted[k]).translator, emitted[k].pattern)
            &&& emitted[k].pattern.len() > 0
            &&& Point2Di64::zero().lex_lt(emitted[k].translator)
        }
    &&& forall|a: int, b: int|
        0 <= a < b < emitted.len() ==> (#[trigger] emitted[a]).translator.lex_lt(
            (#[trigger] emitted[b]).translator,
        )
    &&& forall|k: int|
        0 <= k < emitted.len() ==> has_difference_before(
            entries,
            i,
            (#[trigger] emitted[k]).translator,
        )
    &&& forall|x: int|
        0 <= x < i && x < entries.len() ==> has_translator(emitted, (#[trigger] entries[x]).0)
}

/// One of the entries before position `i` holds the difference `d`.
pub open spec fn has_difference_before(
    entries: Seq<(Point2Di64, usize)>,
    i: int,
    d: Point2Di64,
) -> bool {
    exists|x: int| 0 <= x < i && x < entries.len() && (#[trigger] entries[x]).0 == d
}

/// One of the MTPs has the translator `d`.
pub open spec fn has_translator(mtps: Seq<MtpView>, d: Point2Di64) -> bool {
    exists|k: int| 0 <= k < mtps.len() && (#[trigger] mtps[k]).translator == d
}

pub proof fn lemma_nothing_emitted(points: Seq<Point2Di64>, entries: Seq<(Point2Di64, usize)>)
    ensures
        emitted_up_to(points, entries, 0, Seq::<MtpView>::empty()),
{
    reveal(emitted_up_to);
}

/// In a sorted list, an entry before the start of a run has a smaller
/// difference than the run.
proof fn lemma_earlier_run_is_smaller(entries: Seq<(Point2Di64, usize)>, x: int, s: int)
    requires
        entries_ascending(entries),
        0 <= x < s < entries.len(),
        entries[s - 1].0 != entries[s].0,
    ensures
        entries[x].0.lex_lt(entries[s].0),
{
    assert(entry_lt(entries[s - 1], entries[s]));
    if x < s - 1 {
        assert(entry_lt(entries[x], entries[s - 1]));
    }
}

/// In a sorted list, an entry with the difference of a maximal run lies
/// within the run.
proof fn lemma_entry_in_run(entries: Seq<(Point2Di64, usize)>, s: int, e: int, x: int)
    requires
        entries_ascending(entries),
        0 <= s < e <= entries.len(),
        0 <= x < entries.len(),
        entries[e - 1].0 == entries[s].0,
        s > 0 ==> entries[s - 1].0 != entries[s].0,
        e < entries.len() ==> entries[e].0 != entries[s].0,
        entries[x].0 == entries[s].0,
    ensures
        s <= x < e,
{
    if x < s {
        lemma_earlier_run_is_smaller(entries, x, s);
    }
    if x >= e {
        assert(entry_lt(entries[e - 1], entries[e]));
        if x > e {
            assert(entry_lt(entries[e], entries[x]));
        }
    }
}

/// The points at the indices of a run of entries are strictly ascending.
proof fn lemma_run_is_ascending(
    points: Seq<Point2Di64>,
    entries: Seq<(Point2Di64, usize)>,
    s: int,
    e: int,
    pattern: Seq<Point2Di64>,
)
    requires
        strictly_ascending(points),
        entries_ascending(entries),
        0 <= s < e <= entries.len(),
        forall|x: int| s <= x < e ==> (#[trigger] entries[x]).0 == entries[s].0,
        forall|x: int| s <= x < e ==> (#[trigger] entries[x]).1 < points.len(),
        pattern.len() == e - s,
        forall|k: int| 0 <= k < e - s ==> #[trigger] pattern[k] == points[entries[s + k].1 as int],
    ensures
        strictly_ascending(pattern),
{
    assert forall|a: int, b: int| 0 <= a < b < pattern.len() implies (#[trigger] pattern[a]).lex_lt(
        #[trigger] pattern[b],
    ) by {
        assert(entry_lt(entries[s + a], entries[s + b]));
        assert(entries[s + a].0 == entries[s].0);
        assert(entries[s + b].0 == entries[s].0);
        assert(entries[s + a].1 < entries[s + b].1);
        assert(points[entries[s + a].1 as int].lex_lt(points[entries[s + b].1 as int]));
    }
}

/// A point of the set that the difference of a maximal run moves onto a
/// point of the set is the starting point of an entry of that run.
proof fn lemma_run_is_complete(
    points: Seq<Point2Di64>,
    entries: Seq<(Point2Di64, usize)>,
    s: int,
    e: int,
    i: int,
    j: int,
) -> (x: int)
    requires
        strictly_ascending(points),
        is_forward_diff_list(points, entries),
        0 <= s < e <= entries.len(),
        entries[e - 1].0 == entries[s].0,
        s > 0 ==> entries[s - 1].0 != entries[s].0,
        e < entries.len() ==> entries[e].0 != entries[s].0,
        Point2Di64::zero().lex_lt(entries[s].0),
        0 <= i < points.len(),
        0 <= j < points.len(),
        is_sum(points[i], entries[s].0, points[j]),
    ensures
        s <= x < e,
        entries[x].1 == i,
{
    assert(points[i].lex_lt(points[j]));
    if j < i {
        assert(points[j].lex_lt(points[i]));
    }
    assert(has_entry(entries, i, points[i], points[j]));
    let x = choose|x: int|
        0 <= x < entries.len() && (#[trigger] entries[x]).1 == i && is_diff(
            points[j],
            points[i],
            entries[x].0,
        );
    assert(entries[x].0 == entries[s].0);
    lemma_entry_in_run(entries, s, e, x);
    x
}

/// A maximal run of entries with one difference gives the MTP of that
/// difference.
proof fn lemma_run_is_mtp(
    points: Seq<Point2Di64>,
    entries: Seq<(Point2Di64, usize)>,
    s: int,
    e: int,
    pattern: Seq<Point2Di64>,
)
    requires
        strictly_ascending(points),
        is_forward_diff_list(points, entries),
        0 <= s < e <= entries.len(),
        forall|x: int| s <= x < e ==> (#[trigger] entries[x]).0 == entries[s].0,
        s > 0 ==> entries[s - 1].0 != entries[s].0,
        e < entries.len() ==> entries[e].0 != entries[s].0,
        pattern.len() == e - s,
        forall|k: int| 0 <= k < e - s ==> #[trigger] pattern[k] == points[entries[s + k].1 as int],
    ensures
        is_mtp_of(points, entries[s].0, pattern),
        pattern.len() > 0,
        Point2Di64::zero().lex_lt(entries[s].0),
{
    let t = entries[s].0;
    assert(is_forward_diff(points, entries[s]));
    let j0 = choose|j: int|
        entries[s].1 < j < points.len() && is_diff(
            #[trigger] points[j],
            points[entries[s].1 as int],
            entries[s].0,
        );
    assert(points[entries[s].1 as int].lex_lt(points[j0]));
    assert forall|x: int| s <= x < e implies (#[trigger] entries[x]).1 < points.len() by {
        assert(is_forward_diff(points, entries[x]));
    }
    lemma_run_is_ascending(points, entries, s, e, pattern);
    assert(entries[e - 1].0 == entries[s].0);
    assert forall|p: Point2Di64|
        pattern.contains(p) <==> (points.contains(p) && translated_in(points, p, t)) by {
        if pattern.contains(p) {
            let k = choose|k: int| 0 <= k < pattern.len() && pattern[k] == p;
            assert(is_forward_diff(points, entries[s + k]));
            let j = choose|j: int|
                entries[s + k].1 < j < points.len() && is_diff(
                    #[trigger] points[j],
                    points[entries[s + k].1 as int],
                    entries[s + k].0,
                );
            assert(points[entries[s + k].1 as int] == p);
            assert(entries[s + k].0 == t);
            assert(is_sum(p, t, points[j]));
        }
        if points.contains(p) && translated_in(points, p, t) {
            let i = choose|i: int| 0 <= i < points.len() && points[i] == p;
            let j = choose|j: int| 0 <= j < points.len() && is_sum(p, t, #[trigger] points[j]);
            let x = lemma_run_is_complete(points, entries, s, e, i, j);
            assert(pattern[x - s] == points[entries[s + (x - s)].1 as int]);
        }
    }
}

/// After a maximal run has been turned into an MTP, the entries up to the
/// end of the run are dealt with.
pub proof fn lemma_run_emitted(
    points: Seq<Point2Di64>,
    entries: Seq<(Point2Di64, usize)>,
    s: int,
    e: int,
    emitted: Seq<MtpView>,
    pattern: Seq<Point2Di64>,
)
    requires
        strictly_ascending(points),
        is_forward_diff_list(points, entries),
        emitted_up_to(points, entries, s, emitted),
        0 <= s < e <= entries.len(),
        forall|x: int| s <= x < e ==> (#[trigger] entries[x]).0 == entries[s].0,
        s > 0 ==> entries[s - 1].0 != entries[s].0,
        e < entries.len() ==> entries[e].0 != entries[s].0,
        pattern.len() == e - s,
        forall|k: int| 0 <= k < e - s ==> #[trigger] pattern[k] == points[entries[s + k].1 as int],
    ensures
        emitted_up_to(
            points,
            entries,
            e,
            emitted.push(MtpView { translator: entries[s].0, pattern }),
        ),
{
    reveal(emitted_up_to);
    lemma_run_is_mtp(points, entries, s, e, pattern);
    let view = MtpView { translator: entries[s].0, pattern };
    let longer = emitted.push(view);
    assert forall|a: int, b: int| 0 <= a < b < longer.len() implies (
    #[trigger] longer[a]).translator.lex_lt((#[trigger] longer[b]).translator) by {
        if b == emitted.len() {
            assert(has_difference_before(entries, s, emitted[a].translator));
            let x = choose|x: int|
                0 <= x < s && x < entries.len() && (#[trigger] entries[x]).0
                    == emitted[a].translator;
            lemma_earlier_run_is_smaller(entries, x, s);
        } else {
            assert(emitted[a].translator.lex_lt(emitted[b].translator));
        }
    }
    assert forall|k: int| 0 <= k < longer.len() implies has_difference_before(
        entries,
        e,
        (#[trigger] longer[k]).translator,
    ) by {
        if k < emitted.len() {
            assert(has_difference_before(entries, s, emitted[k].translator));
            let x = choose|x: int|
                0 <= x < s && x < entries.len() && (#[trigger] entries[x]).0
                    == emitted[k].translator;
            assert(0 <= x < e && entries[x].0 == longer[k].translator);
        } else {
            assert(0 <= s < e && entries[s].0 == longer[k].translator);
        }
    }
    assert forall|x: int| 0 <= x < e && x < entries.len() implies has_translator(
        longer,
        (#[trigger] entries[x]).0,
    ) by {
        if x < s {
            assert(has_translator(emitted, entries[x].0));
            let k = choose|k: int|
                0 <= k < emitted.len() && (#[trigger] emitted[k]).translator == entries[x].0;
            assert(longer[k].translator == entries[x].0);
        } else {
            assert(longer[emitted.len() as int].translator == entries[x].0);
        }
    }
    assert forall|k: int| 0 <= k < longer.len() implies {
        &&& is_mtp_of(points, (#[trigger] longer[k]).translator, longer[k].pattern)
        &&& longer[k].pattern.len() > 0
        &&& Point2Di64::zero().lex_lt(longer[k].translator)
    } by {
        if k < emitted.len() {
            assert(longer[k] == emitted[k]);
        }
    }
}

/// Once all entries are dealt with, what has been produced is what SIA
/// produces.
pub proof fn lemma_all_emitted(
    points: Seq<Point2Di64>,
    entries: Seq<(Point2Di64, usize)>,
    emitted: Seq<MtpView>,
)
    requires
        is_forward_diff_list(points, entries),
        emitted_up_to(points, entries, entries.len() as int, emitted),
    ensures
        is_sia_result(points, emitted),
{
    reveal(emitted_up_to);
    assert forall|a: int, b: int| 0 <= a < b < points.len() implies #[trigger] leads_between(
        emitted,
        points[a],
        points[b],
    ) by {
        assert(has_entry(entries, a, points[a], points[b]));
        let x = choose|x: int|
            0 <= x < entries.len() && (#[trigger] entries[x]).1 == a && is_diff(
                points[b],
                points[a],
                entries[x].0,
            );
        assert(has_translator(emitted, entries[x].0));
        let k = choose|k: int|
            0 <= k < emitted.len() && (#[trigger] emitted[k]).translator == entries[x].0;
        assert(is_diff(points[b], points[a], emitted[k].translator));
    }
}

} // verus!
