//! Translational equivalence classes.

use crate::point_set::mtp::translated_in;
use crate::point_set::pattern::can_translate;
use crate::point_set::pattern::translated;
use crate::point_set::pattern::Pattern;
use crate::point_set::point::is_sum;
use crate::point_set::point::Point2Di64;
use crate::point_set::set::lemma_ascending_unique;
use crate::point_set::set::lemma_occurs_before_all;
use crate::point_set::set::lemma_occurs_before_step;
use crate::point_set::set::lemma_push_contains;
use crate::point_set::set::lemma_push_keeps_ascending;
use crate::point_set::set::occurs_before;
use crate::point_set::set::strictly_ascending;
use crate::point_set::set::PointSet;
use vstd::prelude::*;

verus! {

/// Every point of `pattern` can be moved by every one of `translators`
/// without overflow.
pub open spec fn translators_fit(pattern: Seq<Point2Di64>, translators: Seq<Point2Di64>) -> bool {
    forall|k: int| 0 <= k < translators.len() ==> can_translate(pattern, #[trigger] translators[k])
}

/// `p` is a point of `pattern`, or one of them moved by one of
/// `translators`.
pub open spec fn covers(
    pattern: Seq<Point2Di64>,
    translators: Seq<Point2Di64>,
    p: Point2Di64,
) -> bool {
    ||| pattern.contains(p)
    ||| exists|i: int, k: int|
        0 <= i < pattern.len() && 0 <= k < translators.len() && is_sum(
            #[trigger] pattern[i],
            #[trigger] translators[k],
            p,
        )
}

/// `p` is a point of `pattern`, or one of them moved by one of
/// `translators` other than `left_out`.
pub open spec fn covers_without(
    pattern: Seq<Point2Di64>,
    translators: Seq<Point2Di64>,
    left_out: Point2Di64,
    p: Point2Di64,
) -> bool {
    ||| pattern.contains(p)
    ||| exists|i: int, k: int|
        0 <= i < pattern.len() && 0 <= k < translators.len() && translators[k] != left_out
            && is_sum(#[trigger] pattern[i], #[trigger] translators[k], p)
}

/// Some point is covered only as long as `translator` is among
/// `translators`.
pub open spec fn is_essential(
    pattern: Seq<Point2Di64>,
    translators: Seq<Point2Di64>,
    translator: Point2Di64,
) -> bool {
    exists|p: Point2Di64| #[trigger]
        covers(pattern, translators, p) && !covers_without(pattern, translators, translator, p)
}

/// `covered` holds, in ascending order, the points that the pattern and its
/// translated copies cover.
pub open spec fn is_covered_set(
    covered: Seq<Point2Di64>,
    pattern: Seq<Point2Di64>,
    translators: Seq<Point2Di64>,
) -> bool {
    &&& strictly_ascending(covered)
    &&& forall|p: Point2Di64| covered.contains(p) <==> covers(pattern, translators, p)
}

/// The pattern can be conjugated: it has a first point, which every
/// translator can move, and from which every other point of the pattern can
/// be reached.
pub open spec fn can_conjugate(pattern: Seq<Point2Di64>, translators: Seq<Point2Di64>) -> bool {
    &&& pattern.len() > 0
    &&& forall|k: int| 0 <= k < translators.len() ==> pattern[0].can_add(#[trigger] translators[k])
    &&& forall|i: int| 0 <= i < pattern.len() ==> (#[trigger] pattern[i]).can_sub(pattern[0])
}

/// The pattern of the conjugate: the first point of `pattern` and its
/// copies under the translators.
pub open spec fn conjugate_pattern(
    pattern: Seq<Point2Di64>,
    translators: Seq<Point2Di64>,
) -> Seq<Point2Di64> {
    Seq::new(
        translators.len() + 1,
        |i: int|
            if i == 0 {
                pattern[0]
            } else {
                pattern[0].plus(translators[i - 1])
            },
    )
}

/// The translators of the conjugate: the vectors from the first point of
/// `pattern` to each of its other points.
pub open spec fn conjugate_translators(pattern: Seq<Point2Di64>) -> Seq<Point2Di64> {
    Seq::new(
        if pattern.len() == 0 {
            0
        } else {
            (pattern.len() - 1) as nat
        },
        |i: int| pattern[i + 1].minus(pattern[0]),
    )
}

/// Represents a translational equivalence class.
/// A TEC consists of a pattern and all of its translationally equivalent
/// occurrences in a point set. TECs are represented as a pattern and the
/// translators by which it can be translated to produce all of the
/// translationally equivalent occurrences. The discovery algorithms produce
/// translators that do *not* contain the zero vector.
#[derive(Debug, Clone, PartialEq, Eq)]
pub struct Tec {
    /// The pattern that the class stands for.
    pub pattern: Pattern,
    /// The vectors that move the pattern onto its other occurrences.
    pub translators: Vec<Point2Di64>,
}

/// What a TEC is in contracts: the points of its pattern and its
/// translators.
pub struct TecView {
    /// The points of the pattern, in the pattern's order.
    pub pattern: Seq<Point2Di64>,
    /// The translators, in their order.
    pub translators: Seq<Point2Di64>,
}

impl View for Tec {
    type V = TecView;

    open spec fn view(&self) -> TecView {
        TecView { pattern: self.pattern@, translators: self.translators@ }
    }
}

/// The views of the given TECs, in the same order.
pub open spec fn tec_views(tecs: Seq<Tec>) -> Seq<TecView> {
    Seq::new(tecs.len(), |k: int| tecs[k]@)
}

/// The translator moves every point of the pattern onto a point of
/// `points`.
pub open spec fn is_translator_of(
    points: Seq<Point2Di64>,
    pattern: Seq<Point2Di64>,
    translator: Point2Di64,
) -> bool {
    forall|i: int| 0 <= i < pattern.len() ==> translated_in(points, #[trigger] pattern[i], translator)
}

/// The TEC lies within `points`: its pattern is a non-empty selection of
/// the points, and its translators are, in ascending order, non-zero
/// vectors that move the whole pattern onto points of the set.
pub open spec fn is_tec_in(points: Seq<Point2Di64>, tec: TecView) -> bool {
    &&& tec.pattern.len() > 0
    &&& strictly_ascending(tec.translators)
    &&& forall|i: int| 0 <= i < tec.pattern.len() ==> points.contains(#[trigger] tec.pattern[i])
    &&& forall|k: int|
        0 <= k < tec.translators.len() ==> (#[trigger] tec.translators[k]) != Point2Di64::zero()
            && is_translator_of(points, tec.pattern, tec.translators[k])
}

/// The TEC lies within `points` and is complete: its pattern is in
/// ascending order, and its translators are, in ascending order, all the
/// non-zero vectors that move the whole pattern onto points of the set.
pub open spec fn is_full_tec_in(points: Seq<Point2Di64>, tec: TecView) -> bool {
    &&& is_tec_in(points, tec)
    &&& strictly_ascending(tec.pattern)
    &&& forall|t: Point2Di64|
        t != Point2Di64::zero() && #[trigger] is_translator_of(points, tec.pattern, t)
            ==> tec.translators.contains(t)
}

impl Tec {
    /// Returns a copy of this TEC.
    pub fn copy(&self) -> (tec: Tec)
        ensures
            tec.pattern@ == self.pattern@,
            tec.translators@ == self.translators@,
    {
        let mut translators: Vec<Point2Di64> = Vec::with_capacity(self.translators.len());
        let mut k: usize = 0;
        while k < self.translators.len()
            invariant
                k <= self.translators.len(),
                translators@.len() == k,
                forall|m: int| 0 <= m < k ==> translators@[m] == self.translators@[m],
            decreases self.translators.len() - k,
        {
            translators.push(self.translators[k]);
            k += 1;
        }
        assert(translators@ == self.translators@);
        Tec { pattern: self.pattern.copy(), translators }
    }

    /// Returns the expansion of this TEC.
    ///
    /// The TEC is expanded by creating all translated copies of the
    /// pattern. The pattern itself comes first.
    pub fn expand(&self) -> (occurrences: Vec<Pattern>)
        requires
            translators_fit(self.pattern@, self.translators@),
        ensures
            occurrences@.len() == self.translators@.len() + 1,
            occurrences@[0]@ == self.pattern@,
            forall|k: int|
                0 <= k < self.translators@.len() ==> (#[trigger] occurrences@[k + 1])@
                    == translated(self.pattern@, self.translators@[k]),
    {
        let mut occurrences: Vec<Pattern> = Vec::with_capacity(self.translators.len());
        occurrences.push(self.pattern.copy());
        let mut k: usize = 0;
        while k < self.translators.len()
            invariant
                k <= self.translators.len(),
                translators_fit(self.pattern@, self.translators@),
                occurrences@.len() == k + 1,
                occurrences@[0]@ == self.pattern@,
                forall|m: int|
                    0 <= m < k ==> (#[trigger] occurrences@[m + 1])@ == translated(
                        self.pattern@,
                        self.translators@[m],
                    ),
            decreases self.translators.len() - k,
        {
            assert(can_translate(self.pattern@, self.translators@[k as int]));
            occurrences.push(self.pattern.translate(&self.translators[k]));
            k += 1;
        }
        occurrences
    }

    /// Returns the set of points covered by this TEC.
    pub fn covered_set(&self) -> (covered: PointSet)
        requires
            translators_fit(self.pattern@, self.translators@),
        ensures
            is_covered_set(covered@, self.pattern@, self.translators@),
    {
        let ghost pattern = self.pattern@;
        let ghost translators = self.translators@;
        let mut points: Vec<Point2Di64> = Vec::new();
        let mut i: usize = 0;
        while i < self.pattern.len()
            invariant
                i <= pattern.len(),
                pattern == self.pattern@,
                points@ == pattern.subrange(0, i as int),
            decreases pattern.len() - i,
        {
            points.push(self.pattern[i]);
            assert(points@ == pattern.subrange(0, i + 1));
            i += 1;
        }
        assert(points@ == pattern);
        let mut k: usize = 0;
        while k < self.translators.len()
            invariant
                k <= translators.len(),
                pattern == self.pattern@,
                translators == self.translators@,
                translators_fit(pattern, translators),
                forall|p: Point2Di64|
                    points@.contains(p) <==> covers(pattern, translators.subrange(0, k as int), p),
            decreases translators.len() - k,
        {
            let translator = self.translators[k];
            assert(can_translate(pattern, translators[k as int]));
            let ghost start = points@;
            let mut i: usize = 0;
            while i < self.pattern.len()
                invariant
                    i <= pattern.len(),
                    k < translators.len(),
                    pattern == self.pattern@,
                    translator == translators[k as int],
                    can_translate(pattern, translator),
                    points@.len() == start.len() + i,
                    forall|m: int| 0 <= m < start.len() ==> points@[m] == start[m],
                    forall|m: int|
                        0 <= m < i ==> points@[start.len() + m] == pattern[m].plus(translator),
                decreases pattern.len() - i,
            {
                assert(pattern[i as int].can_add(translator));
                points.push(self.pattern[i] + translator);
                i += 1;
            }
            proof {
                lemma_covers_one_more(pattern, translators, k as int, start, points@);
            }
            k += 1;
        }
        assert(translators.subrange(0, k as int) == translators);
        PointSet::new(points)
    }

    /// Returns the conjugate TEC of this TEC: the first point of the
    /// pattern with its copies under the translators becomes the pattern,
    /// and the vectors from the first point to the others become the
    /// translators.
    pub fn conjugate(&self) -> (conjugate: Tec)
        requires
            can_conjugate(self.pattern@, self.translators@),
        ensures
            conjugate.pattern@ == conjugate_pattern(self.pattern@, self.translators@),
            conjugate.translators@ == conjugate_translators(self.pattern@),
    {
        let first = self.pattern[0];
        let mut conj_pat_points: Vec<Point2Di64> = Vec::with_capacity(self.translators.len());
        conj_pat_points.push(first);
        let mut k: usize = 0;
        while k < self.translators.len()
            invariant
                k <= self.translators.len(),
                can_conjugate(self.pattern@, self.translators@),
                first == self.pattern@[0],
                conj_pat_points@.len() == k + 1,
                conj_pat_points@[0] == first,
                forall|m: int|
                    0 <= m < k ==> conj_pat_points@[m + 1] == first.plus(self.translators@[m]),
            decreases self.translators.len() - k,
        {
            assert(first.can_add(self.translators@[k as int]));
            conj_pat_points.push(first + self.translators[k]);
            k += 1;
        }
        let mut translators: Vec<Point2Di64> = Vec::with_capacity(self.pattern.len());
        let mut i: usize = 1;
        while i < self.pattern.len()
            invariant
                1 <= i <= self.pattern@.len(),
                can_conjugate(self.pattern@, self.translators@),
                first == self.pattern@[0],
                translators@.len() == i - 1,
                forall|m: int| 0 <= m < i - 1 ==> translators@[m] == self.pattern@[m + 1].minus(first),
            decreases self.pattern@.len() - i,
        {
            assert(self.pattern@[i as int].can_sub(first));
            translators.push(self.pattern[i] - first);
            i += 1;
        }
        assert(conj_pat_points@ == conjugate_pattern(self.pattern@, self.translators@));
        assert(translators@ == conjugate_translators(self.pattern@));
        Tec { pattern: Pattern::from_points(conj_pat_points), translators }
    }
}

impl Tec {
    /// Returns a TEC with all redundant translators removed.
    /// A translator is redundant if it can be removed without affecting the
    /// covered set of the TEC. The translators that stay come in ascending
    /// order, each once.
    pub fn remove_redundant_translators(&self) -> (reduced: Tec)
        requires
            translators_fit(self.pattern@, self.translators@),
        ensures
            reduced.pattern@ == self.pattern@,
            strictly_ascending(reduced.translators@),
            forall|t: Point2Di64|
                reduced.translators@.contains(t) <==> (self.translators@.contains(t)
                    && is_essential(self.pattern@, self.translators@, t)),
    {
        let ghost pattern = self.pattern@;
        let ghost all = self.translators@;
        let covered_set = self.covered_set();
        let cleaned_translators = PointSet::new(self.copy().translators).points();
        let ghost cleaned = cleaned_translators@;
        proof {
            lemma_covers_same_translators(pattern, all, cleaned);
        }
        let mut translators: Vec<Point2Di64> = Vec::new();
        let mut i: usize = 0;
        while i < cleaned_translators.len()
            invariant
                i <= cleaned.len(),
                cleaned == cleaned_translators@,
                pattern == self.pattern@,
                all == self.translators@,
                translators_fit(pattern, all),
                strictly_ascending(cleaned),
                forall|t: Point2Di64| cleaned.contains(t) <==> all.contains(t),
                is_covered_set(covered_set@, pattern, all),
                strictly_ascending(translators@),
                forall|t: Point2Di64| #[trigger]
                    translators@.contains(t) <==> (occurs_before(cleaned, i as int, t)
                        && is_essential(pattern, all, t)),
            decreases cleaned.len() - i,
        {
            let mut transl_copy: Vec<Point2Di64> = Vec::with_capacity(cleaned_translators.len());
            let mut m: usize = 0;
            while m < cleaned_translators.len()
                invariant
                    m <= cleaned.len(),
                    i < cleaned.len(),
                    cleaned == cleaned_translators@,
                    transl_copy@.len() == if m <= i {
                        m as int
                    } else {
                        m - 1
                    },
                    forall|x: int| 0 <= x < i && x < m ==> transl_copy@[x] == cleaned[x],
                    forall|x: int| i < x < m ==> transl_copy@[x - 1] == cleaned[x],
                decreases cleaned.len() - m,
            {
                if m != i {
                    transl_copy.push(cleaned_translators[m]);
                }
                m += 1;
            }
            let translator = cleaned_translators[i];
            let ghost rest = transl_copy@;
            proof {
                assert(cleaned.contains(translator));
                lemma_covers_without_one(pattern, all, cleaned, i as int, rest);
                assert forall|k: int| 0 <= k < rest.len() implies can_translate(
                    pattern,
                    #[trigger] rest[k],
                ) by {
                    let x = if k < i {
                        k
                    } else {
                        k + 1
                    };
                    assert(rest[k] == cleaned[x]);
                    assert(cleaned.contains(cleaned[x]));
                    assert(all.contains(rest[k]));
                    let y = choose|y: int| 0 <= y < all.len() && all[y] == rest[k];
                    assert(can_translate(pattern, all[y]));
                }
            }
            let cov = Tec { pattern: self.pattern.copy(), translators: transl_copy }.covered_set();
            let changed = !cov.equals(&covered_set);
            let ghost before = translators@;
            proof {
                if changed {
                    if !is_essential(pattern, all, translator) {
                        assert forall|p: Point2Di64| cov@.contains(p) <==> covered_set@.contains(
                            p,
                        ) by {
                            if covers(pattern, all, p) {
                                assert(covers_without(pattern, all, translator, p));
                            }
                        }
                        lemma_ascending_unique(cov@, covered_set@);
                    }
                } else {
                    if is_essential(pattern, all, translator) {
                        let p = choose|p: Point2Di64| #[trigger]
                            covers(pattern, all, p) && !covers_without(
                                pattern,
                                all,
                                translator,
                                p,
                            );
                        assert(covered_set@.contains(p));
                        assert(!cov@.contains(p));
                    }
                }
            }
            if changed {
                translators.push(translator);
                proof {
                    lemma_push_keeps_ascending(before, cleaned, i as int);
                    lemma_push_contains(before, translator);
                }
            }
            proof {
                lemma_occurs_before_step(cleaned, i as int);
            }
            i += 1;
        }
        proof {
            lemma_occurs_before_all(cleaned);
            assert forall|t: Point2Di64|
                translators@.contains(t) <==> (all.contains(t) && is_essential(
                    pattern,
                    all,
                    t,
                )) by {
                if cleaned.contains(t) {
                    assert(occurs_before(cleaned, i as int, t));
                }
            }
        }
        Tec { pattern: self.pattern.copy(), translators }
    }
}

/// Two translator lists that hold the same vectors cover the same points.
proof fn lemma_covers_same_translators(
    pattern: Seq<Point2Di64>,
    a: Seq<Point2Di64>,
    b: Seq<Point2Di64>,
)
    requires
        forall|t: Point2Di64| a.contains(t) <==> b.contains(t),
    ensures
        forall|p: Point2Di64| covers(pattern, a, p) <==> covers(pattern, b, p),
{
    assert forall|p: Point2Di64| covers(pattern, a, p) <==> covers(pattern, b, p) by {
        if covers(pattern, a, p) && !pattern.contains(p) {
            let (i, k) = choose|i: int, k: int|
                0 <= i < pattern.len() && 0 <= k < a.len() && is_sum(
                    #[trigger] pattern[i],
                    #[trigger] a[k],
                    p,
                );
            assert(a.contains(a[k]));
            let m = choose|m: int| 0 <= m < b.len() && b[m] == a[k];
            assert(is_sum(pattern[i], b[m], p));
        }
        if covers(pattern, b, p) && !pattern.contains(p) {
            let (i, k) = choose|i: int, k: int|
                0 <= i < pattern.len() && 0 <= k < b.len() && is_sum(
                    #[trigger] pattern[i],
                    #[trigger] b[k],
                    p,
                );
            assert(b.contains(b[k]));
            let m = choose|m: int| 0 <= m < a.len() && a[m] == b[k];
            assert(is_sum(pattern[i], a[m], p));
        }
    }
}

/// The distinct translators without the one at position `i` cover what all
/// translators cover without its help.
proof fn lemma_covers_without_one(
    pattern: Seq<Point2Di64>,
    all: Seq<Point2Di64>,
    cleaned: Seq<Point2Di64>,
    i: int,
    rest: Seq<Point2Di64>,
)
    requires
        0 <= i < cleaned.len(),
        strictly_ascending(cleaned),
        forall|t: Point2Di64| cleaned.contains(t) <==> all.contains(t),
        rest.len() == cleaned.len() - 1,
        forall|x: int| 0 <= x < i ==> rest[x] == cleaned[x],
        forall|x: int| i < x < cleaned.len() ==> rest[x - 1] == cleaned[x],
    ensures
        forall|p: Point2Di64|
            covers(pattern, rest, p) <==> covers_without(pattern, all, cleaned[i], p),
{
    let left_out = cleaned[i];
    assert forall|p: Point2Di64| covers(pattern, rest, p) <==> covers_without(
        pattern,
        all,
        left_out,
        p,
    ) by {
        if covers(pattern, rest, p) && !pattern.contains(p) {
            let (a, k) = choose|a: int, k: int|
                0 <= a < pattern.len() && 0 <= k < rest.len() && is_sum(
                    #[trigger] pattern[a],
                    #[trigger] rest[k],
                    p,
                );
            let x = if k < i {
                k
            } else {
                k + 1
            };
            assert(rest[k] == cleaned[x]);
            if x < i {
                assert(cleaned[x].lex_lt(cleaned[i]));
            } else {
                assert(cleaned[i].lex_lt(cleaned[x]));
            }
            assert(cleaned.contains(cleaned[x]));
            let m = choose|m: int| 0 <= m < all.len() && all[m] == rest[k];
            assert(all[m] != left_out && is_sum(pattern[a], all[m], p));
        }
        if covers_without(pattern, all, left_out, p) && !pattern.contains(p) {
            let (a, k) = choose|a: int, k: int|
                0 <= a < pattern.len() && 0 <= k < all.len() && all[k] != left_out && is_sum(
                    #[trigger] pattern[a],
                    #[trigger] all[k],
                    p,
                );
            assert(all.contains(all[k]));
            let x = choose|x: int| 0 <= x < cleaned.len() && cleaned[x] == all[k];
            assert(x != i);
            let m = if x < i {
                x
            } else {
                x - 1
            };
            assert(rest[m] == cleaned[x]);
            assert(is_sum(pattern[a], rest[m], p));
        }
    }
}

/// Moving a pattern by the zero vector leaves it as it is.
pub proof fn lemma_translate_by_zero(points: Seq<Point2Di64>)
    ensures
        can_translate(points, Point2Di64::zero()),
        translated(points, Point2Di64::zero()) == points,
{
    assert(translated(points, Point2Di64::zero()) =~= points);
}

/// Appending the copy of the pattern under one more translator extends what
/// is covered by exactly the points that this translator adds.
proof fn lemma_covers_one_more(
    pattern: Seq<Point2Di64>,
    translators: Seq<Point2Di64>,
    k: int,
    start: Seq<Point2Di64>,
    extended: Seq<Point2Di64>,
)
    requires
        0 <= k < translators.len(),
        can_translate(pattern, translators[k]),
        forall|p: Point2Di64| start.contains(p) <==> covers(pattern, translators.subrange(0, k), p),
        extended.len() == start.len() + pattern.len(),
        forall|m: int| 0 <= m < start.len() ==> extended[m] == start[m],
        forall|m: int|
            0 <= m < pattern.len() ==> extended[start.len() + m] == pattern[m].plus(translators[k]),
    ensures
        forall|p: Point2Di64|
            extended.contains(p) <==> covers(pattern, translators.subrange(0, k + 1), p),
{
    let fewer = translators.subrange(0, k);
    let more = translators.subrange(0, k + 1);
    assert forall|p: Point2Di64| extended.contains(p) <==> covers(pattern, more, p) by {
        if extended.contains(p) {
            let m = choose|m: int| 0 <= m < extended.len() && extended[m] == p;
            if m < start.len() {
                assert(start[m] == p);
                assert(start.contains(p));
                assert(covers(pattern, fewer, p));
                if !pattern.contains(p) {
                    let (i, j) = choose|i: int, j: int|
                        0 <= i < pattern.len() && 0 <= j < fewer.len() && is_sum(
                            #[trigger] pattern[i],
                            #[trigger] fewer[j],
                            p,
                        );
                    assert(fewer[j] == translators[j]);
                    assert(more[j] == translators[j]);
                    assert(is_sum(pattern[i], more[j], p));
                }
            } else {
                let i = m - start.len();
                assert(pattern[i].can_add(translators[k]));
                assert(more[k] == translators[k]);
                assert(is_sum(pattern[i], more[k], p));
            }
        }
        if covers(pattern, more, p) {
            if pattern.contains(p) {
                assert(covers(pattern, fewer, p));
                assert(start.contains(p));
                let m = choose|m: int| 0 <= m < start.len() && start[m] == p;
                assert(extended[m] == p);
            } else {
                let (i, j) = choose|i: int, j: int|
                    0 <= i < pattern.len() && 0 <= j < more.len() && is_sum(
                        #[trigger] pattern[i],
                        #[trigger] more[j],
                        p,
                    );
                assert(more[j] == translators[j]);
                if j < k {
                    assert(fewer[j] == translators[j]);
                    assert(is_sum(pattern[i], fewer[j], p));
                    assert(covers(pattern, fewer, p));
                    assert(start.contains(p));
                    let m = choose|m: int| 0 <= m < start.len() && start[m] == p;
                    assert(extended[m] == p);
                } else {
                    assert(pattern[i].can_add(translators[k]));
                    assert(extended[start.len() + i] == p);
                }
            }
        }
    }
}

} // verus!
