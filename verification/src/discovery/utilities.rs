//! Sorting of difference vectors that carry the indices of the points they
//! were computed from.

use crate::discovery::shapes::lemma_shape_order_is_strict;
use crate::discovery::shapes::lemma_shape_order_is_transitive;
use crate::point_set::pattern::lemma_shapes_are_ordered;
use crate::ranked::sort_ranked;
use crate::ranked::Ranked;
use crate::point_set::pattern::shape_lt;
use crate::point_set::pattern::Pattern;
use crate::point_set::point::Point2Di64;
use std::cmp::Ordering;
use vstd::prelude::*;

verus! {

/// The order of differences with a source index: by difference first, by
/// index where the differences are equal.
pub open spec fn entry_lt(a: (Point2Di64, usize), b: (Point2Di64, usize)) -> bool {
    a.0.lex_lt(b.0) || (a.0 == b.0 && a.1 < b.1)
}

/// The entries come in ascending order of difference and index, none twice.
pub open spec fn entries_ascending(entries: Seq<(Point2Di64, usize)>) -> bool {
    forall|i: int, j: int|
        0 <= i < j < entries.len() ==> entry_lt(#[trigger] entries[i], #[trigger] entries[j])
}

/// No entry is larger than a later one.
pub open spec fn entries_sorted(entries: Seq<(Point2Di64, usize)>) -> bool {
    forall|i: int, j: int|
        0 <= i < j < entries.len() ==> !entry_lt(#[trigger] entries[j], #[trigger] entries[i])
}

/// Compares two differences with a source index: by difference first, by
/// index where the differences are equal.
pub fn entry_order(a: &(Point2Di64, usize), b: &(Point2Di64, usize)) -> (order: Ordering)
    ensures
        order == Ordering::Less <==> entry_lt(*a, *b),
        order == Ordering::Greater <==> entry_lt(*b, *a),
        order == Ordering::Equal <==> *a == *b,
{
    if a.0.x < b.0.x {
        Ordering::Less
    } else if a.0.x > b.0.x {
        Ordering::Greater
    } else if a.0.y < b.0.y {
        Ordering::Less
    } else if a.0.y > b.0.y {
        Ordering::Greater
    } else if a.1 < b.1 {
        Ordering::Less
    } else if a.1 > b.1 {
        Ordering::Greater
    } else {
        Ordering::Equal
    }
}

impl Ranked for (Point2Di64, usize) {
    open spec fn comes_before(self, other: (Point2Di64, usize)) -> bool {
        entry_lt(self, other)
    }

    fn rank_order(&self, other: &(Point2Di64, usize)) -> (order: Ordering) {
        entry_order(self, other)
    }

    proof fn lemma_ranking_is_consistent(
        a: (Point2Di64, usize),
        b: (Point2Di64, usize),
        c: (Point2Di64, usize),
    ) {
    }
}

/// Sorts the given pairs into ascending lexicographical order by first
/// comparing the first elements, and comparing the second elements only if
/// the first elements are equal.
pub fn sort(diffs: &mut Vec<(Point2Di64, usize)>)
    ensures
        final(diffs)@.to_multiset() == old(diffs)@.to_multiset(),
        final(diffs)@.len() == old(diffs)@.len(),
        entries_sorted(final(diffs)@),
        forall|e: (Point2Di64, usize)| final(diffs)@.contains(e) <==> old(diffs)@.contains(e),
        old(diffs)@.no_duplicates() ==> entries_ascending(final(diffs)@),
{
    let ghost before = diffs@;
    sort_ranked(diffs);
    proof {
        let after = diffs@;
        assert forall|i: int, j: int| 0 <= i < j < after.len() implies !entry_lt(
            #[trigger] after[j],
            #[trigger] after[i],
        ) by {
            assert(!after[j].comes_before(after[i]));
        }
        vstd::seq_lib::to_multiset_len(before);
        vstd::seq_lib::to_multiset_len(after);
        assert forall|e: (Point2Di64, usize)| after.contains(e) <==> before.contains(e) by {
            vstd::seq_lib::to_multiset_contains(before, e);
            vstd::seq_lib::to_multiset_contains(after, e);
        }
        if before.no_duplicates() {
            before.lemma_multiset_has_no_duplicates();
            after.lemma_multiset_has_no_duplicates_conv();
            assert forall|i: int, j: int| 0 <= i < j < after.len() implies entry_lt(
                #[trigger] after[i],
                #[trigger] after[j],
            ) by {
                assert(after[i] != after[j]);
                assert(!entry_lt(after[j], after[i]));
            }
        }
    }
}

/// The order of differences with the indices of the two points they lie
/// between: by difference first, by the index of the point the difference
/// starts from where the differences are equal.
pub open spec fn pair_entry_lt(
    a: (Point2Di64, (usize, usize)),
    b: (Point2Di64, (usize, usize)),
) -> bool {
    a.0.lex_lt(b.0) || (a.0 == b.0 && a.1.0 < b.1.0)
}

/// No entry comes before an earlier one in the order of differences and
/// source indices.
pub open spec fn pair_entries_sorted(entries: Seq<(Point2Di64, (usize, usize))>) -> bool {
    forall|i: int, j: int|
        0 <= i < j < entries.len() ==> !pair_entry_lt(#[trigger] entries[j], #[trigger] entries[i])
}

/// Compares two differences with index pairs: by difference first, by the
/// index of the point the difference starts from where the differences are
/// equal.
pub fn pair_entry_order(
    a: &(Point2Di64, (usize, usize)),
    b: &(Point2Di64, (usize, usize)),
) -> (order: Ordering)
    ensures
        order == Ordering::Less <==> pair_entry_lt(*a, *b),
        order == Ordering::Greater <==> pair_entry_lt(*b, *a),
        order == Ordering::Equal <==> (a.0 == b.0 && a.1.0 == b.1.0),
{
    if a.0.x < b.0.x {
        Ordering::Less
    } else if a.0.x > b.0.x {
        Ordering::Greater
    } else if a.0.y < b.0.y {
        Ordering::Less
    } else if a.0.y > b.0.y {
        Ordering::Greater
    } else if a.1.0 < b.1.0 {
        Ordering::Less
    } else if a.1.0 > b.1.0 {
        Ordering::Greater
    } else {
        Ordering::Equal
    }
}

impl Ranked for (Point2Di64, (usize, usize)) {
    open spec fn comes_before(self, other: (Point2Di64, (usize, usize))) -> bool {
        pair_entry_lt(self, other)
    }

    fn rank_order(&self, other: &(Point2Di64, (usize, usize))) -> (order: Ordering) {
        pair_entry_order(self, other)
    }

    proof fn lemma_ranking_is_consistent(
        a: (Point2Di64, (usize, usize)),
        b: (Point2Di64, (usize, usize)),
        c: (Point2Di64, (usize, usize)),
    ) {
    }
}

/// Sorts the given differences with index pairs into ascending order of
/// the differences and, where these are equal, of the index of the point
/// that the difference starts from.
pub fn sort_with_ind_pairs(diffs: &mut Vec<(Point2Di64, (usize, usize))>)
    ensures
        final(diffs)@.to_multiset() == old(diffs)@.to_multiset(),
        final(diffs)@.len() == old(diffs)@.len(),
        pair_entries_sorted(final(diffs)@),
        forall|e: (Point2Di64, (usize, usize))|
            final(diffs)@.contains(e) <==> old(diffs)@.contains(e),
{
    let ghost before = diffs@;
    sort_ranked(diffs);
    proof {
        let after = diffs@;
        assert forall|i: int, j: int| 0 <= i < j < after.len() implies !pair_entry_lt(
            #[trigger] after[j],
            #[trigger] after[i],
        ) by {
            assert(!after[j].comes_before(after[i]));
        }
        vstd::seq_lib::to_multiset_len(before);
        vstd::seq_lib::to_multiset_len(after);
        assert forall|e: (Point2Di64, (usize, usize))| after.contains(e) <==> before.contains(e) by {
            vstd::seq_lib::to_multiset_contains(before, e);
            vstd::seq_lib::to_multiset_contains(after, e);
        }
    }
}

/// The order of positions in a list of lengths: longer ones first, by
/// position where the lengths are equal.
pub open spec fn longer_first(lengths: Seq<usize>, a: usize, b: usize) -> bool {
    lengths[a as int] > lengths[b as int] || (lengths[a as int] == lengths[b as int] && a < b)
}

/// No position comes before an earlier one in the order of lengths.
pub open spec fn lengths_sorted(lengths: Seq<usize>, order: Seq<usize>) -> bool {
    forall|i: int, j: int|
        0 <= i < j < order.len() ==> !longer_first(lengths, #[trigger] order[j], #[trigger] order[i])
}

/// All positions lie within the list of lengths.
pub open spec fn lengths_within(lengths: Seq<usize>, order: Seq<usize>) -> bool {
    forall|k: int| 0 <= k < order.len() ==> #[trigger] order[k] < lengths.len()
}

/// A length with the position it belongs to. Longer ones come first, and
/// of two equal lengths the one at the earlier position.
pub struct LengthAt {
    /// The length.
    pub length: usize,
    /// The position that the length belongs to.
    pub position: usize,
}

impl Ranked for LengthAt {
    open spec fn comes_before(self, other: LengthAt) -> bool {
        self.length > other.length || (self.length == other.length && self.position
            < other.position)
    }

    fn rank_order(&self, other: &LengthAt) -> (order: Ordering) {
        if self.length > other.length {
            Ordering::Less
        } else if self.length < other.length {
            Ordering::Greater
        } else if self.position < other.position {
            Ordering::Less
        } else if self.position > other.position {
            Ordering::Greater
        } else {
            Ordering::Equal
        }
    }

    proof fn lemma_ranking_is_consistent(a: LengthAt, b: LengthAt, c: LengthAt) {
    }
}

/// Sorts positions in a list of lengths: the positions of longer lengths
/// come first, and those of equal lengths stay in ascending order.
pub fn sort_positions_by_length(order: &mut Vec<usize>, lengths: &Vec<usize>)
    requires
        lengths_within(lengths@, old(order)@),
    ensures
        final(order)@.len() == old(order)@.len(),
        forall|p: usize| final(order)@.contains(p) <==> old(order)@.contains(p),
        old(order)@.no_duplicates() ==> final(order)@.no_duplicates(),
        lengths_sorted(lengths@, final(order)@),
{
    let ghost before = order@;
    let count = order.len();
    let mut keyed: Vec<LengthAt> = Vec::with_capacity(count);
    let mut k: usize = 0;
    while k < count
        invariant
            k <= count,
            count == before.len(),
            order@ == before,
            lengths_within(lengths@, before),
            keyed@.len() == k,
            forall|x: int|
                0 <= x < k ==> (#[trigger] keyed@[x]).position == before[x] && keyed@[x].length
                    == lengths@[before[x] as int],
        decreases count - k,
    {
        let position = order[k];
        keyed.push(LengthAt { length: lengths[position], position });
        k += 1;
    }
    let ghost unsorted = keyed@;
    sort_ranked(&mut keyed);
    let ghost sorted = keyed@;
    proof {
        vstd::seq_lib::to_multiset_len(unsorted);
        vstd::seq_lib::to_multiset_len(sorted);
        assert forall|x: int| 0 <= x < sorted.len() implies unsorted.contains(
            #[trigger] sorted[x],
        ) by {
            assert(sorted.contains(sorted[x]));
            vstd::seq_lib::to_multiset_contains(sorted, sorted[x]);
            vstd::seq_lib::to_multiset_contains(unsorted, sorted[x]);
        }
        assert forall|x: int| 0 <= x < unsorted.len() implies sorted.contains(
            #[trigger] unsorted[x],
        ) by {
            assert(unsorted.contains(unsorted[x]));
            vstd::seq_lib::to_multiset_contains(sorted, unsorted[x]);
            vstd::seq_lib::to_multiset_contains(unsorted, unsorted[x]);
        }
    }
    let mut sorted_order: Vec<usize> = Vec::with_capacity(count);
    let mut k: usize = 0;
    while k < count
        invariant
            k <= count,
            count == sorted.len(),
            keyed@ == sorted,
            sorted_order@.len() == k,
            forall|x: int| 0 <= x < k ==> #[trigger] sorted_order@[x] == sorted[x].position,
        decreases count - k,
    {
        sorted_order.push(keyed[k].position);
        k += 1;
    }
    *order = sorted_order;
    proof {
        let after = order@;
        assert forall|x: int| 0 <= x < sorted.len() implies (#[trigger] sorted[x]).position
            < lengths@.len() && sorted[x].length == lengths@[sorted[x].position as int] by {
            let m = choose|m: int| 0 <= m < unsorted.len() && unsorted[m] == sorted[x];
            assert(unsorted[m].position == before[m]);
        }
        assert forall|p: usize| after.contains(p) <==> before.contains(p) by {
            if after.contains(p) {
                let x = choose|x: int| 0 <= x < after.len() && after[x] == p;
                let m = choose|m: int| 0 <= m < unsorted.len() && unsorted[m] == sorted[x];
                assert(before[m] == p);
            }
            if before.contains(p) {
                let m = choose|m: int| 0 <= m < before.len() && before[m] == p;
                assert(sorted.contains(unsorted[m]));
                let x = choose|x: int| 0 <= x < sorted.len() && sorted[x] == unsorted[m];
                assert(after[x] == p);
            }
        }
        if before.no_duplicates() {
            assert forall|x: int, y: int|
                0 <= x < unsorted.len() && 0 <= y < unsorted.len() && x != y implies unsorted[x]
                != unsorted[y] by {
                assert(unsorted[x].position == before[x]);
                assert(unsorted[y].position == before[y]);
            }
            unsorted.lemma_multiset_has_no_duplicates();
            sorted.lemma_multiset_has_no_duplicates_conv();
            assert forall|x: int, y: int|
                0 <= x < after.len() && 0 <= y < after.len() && x != y implies after[x]
                != after[y] by {
                assert(sorted[x] != sorted[y]);
                assert(sorted[x].length == lengths@[sorted[x].position as int]);
                assert(sorted[y].length == lengths@[sorted[y].position as int]);
            }
        }
        assert forall|i: int, j: int| 0 <= i < j < after.len() implies !longer_first(
            lengths@,
            #[trigger] after[j],
            #[trigger] after[i],
        ) by {
            assert(!sorted[j].comes_before(sorted[i]));
            assert(sorted[i].length == lengths@[sorted[i].position as int]);
            assert(sorted[j].length == lengths@[sorted[j].position as int]);
        }
    }
}

/// The order of differences with their frequencies: the more frequent
/// first, of two equally frequent ones the smaller difference first.
pub open spec fn more_frequent(a: (Point2Di64, u64), b: (Point2Di64, u64)) -> bool {
    a.1 > b.1 || (a.1 == b.1 && a.0.lex_lt(b.0))
}

/// No entry comes before an earlier one in the order of frequencies.
pub open spec fn frequencies_sorted(entries: Seq<(Point2Di64, u64)>) -> bool {
    forall|i: int, j: int|
        0 <= i < j < entries.len() ==> !more_frequent(#[trigger] entries[j], #[trigger] entries[i])
}

/// Compares two differences with their frequencies: the more frequent one
/// comes first, of two equally frequent ones the smaller difference.
pub fn frequency_order(a: &(Point2Di64, u64), b: &(Point2Di64, u64)) -> (order: Ordering)
    ensures
        order == Ordering::Less <==> more_frequent(*a, *b),
        order == Ordering::Greater <==> more_frequent(*b, *a),
        order == Ordering::Equal <==> *a == *b,
{
    if a.1 > b.1 {
        Ordering::Less
    } else if a.1 < b.1 {
        Ordering::Greater
    } else if a.0.x < b.0.x {
        Ordering::Less
    } else if a.0.x > b.0.x {
        Ordering::Greater
    } else if a.0.y < b.0.y {
        Ordering::Less
    } else if a.0.y > b.0.y {
        Ordering::Greater
    } else {
        Ordering::Equal
    }
}

impl Ranked for (Point2Di64, u64) {
    open spec fn comes_before(self, other: (Point2Di64, u64)) -> bool {
        more_frequent(self, other)
    }

    fn rank_order(&self, other: &(Point2Di64, u64)) -> (order: Ordering) {
        frequency_order(self, other)
    }

    proof fn lemma_ranking_is_consistent(
        a: (Point2Di64, u64),
        b: (Point2Di64, u64),
        c: (Point2Di64, u64),
    ) {
    }
}

/// Sorts differences with their frequencies: the more frequent ones come
/// first, and of equally frequent ones the smaller differences.
pub fn sort_frequencies(frequencies: &mut Vec<(Point2Di64, u64)>)
    ensures
        final(frequencies)@.to_multiset() == old(frequencies)@.to_multiset(),
        frequencies_sorted(final(frequencies)@),
{
    sort_ranked(frequencies);
    proof {
        assert forall|i: int, j: int| 0 <= i < j < frequencies@.len() implies !more_frequent(
            #[trigger] frequencies@[j],
            #[trigger] frequencies@[i],
        ) by {
            assert(!frequencies@[j].comes_before(frequencies@[i]));
        }
    }
}

/// The shapes that the given patterns hold.
pub open spec fn shape_views(shapes: Seq<Pattern>) -> Seq<Seq<Point2Di64>> {
    Seq::new(shapes.len(), |k: int| shapes[k]@)
}

/// The order of positions in a list of shapes: by shape first, by position
/// where the shapes are equal.
pub open spec fn position_lt(shapes: Seq<Seq<Point2Di64>>, a: usize, b: usize) -> bool {
    shape_lt(shapes[a as int], shapes[b as int]) || (shapes[a as int] == shapes[b as int] && a < b)
}

/// No position comes before an earlier one in the order of positions.
pub open spec fn positions_sorted(shapes: Seq<Seq<Point2Di64>>, order: Seq<usize>) -> bool {
    forall|i: int, j: int|
        0 <= i < j < order.len() ==> !position_lt(shapes, #[trigger] order[j], #[trigger] order[i])
}

/// All positions lie within the list of shapes.
pub open spec fn positions_within(shapes: Seq<Pattern>, order: Seq<usize>) -> bool {
    forall|k: int| 0 <= k < order.len() ==> #[trigger] order[k] < shapes.len()
}

/// A shape with the position it belongs to. Shapes are ranked by their
/// order, and equal shapes by their positions.
pub struct ShapeAt<'a> {
    /// The shape.
    pub shape: &'a Pattern,
    /// The position that the shape belongs to.
    pub position: usize,
}

impl<'a> Ranked for ShapeAt<'a> {
    open spec fn comes_before(self, other: ShapeAt<'a>) -> bool {
        shape_lt(self.shape@, other.shape@) || (self.shape@ == other.shape@ && self.position
            < other.position)
    }

    fn rank_order(&self, other: &ShapeAt<'a>) -> (order: Ordering) {
        proof {
            lemma_shapes_are_ordered(self.shape@, other.shape@);
            lemma_shape_order_is_strict(self.shape@, other.shape@);
        }
        if self.shape.len() < other.shape.len() {
            Ordering::Less
        } else if self.shape.len() > other.shape.len() {
            Ordering::Greater
        } else if self.shape.precedes(other.shape) {
            Ordering::Less
        } else if other.shape.precedes(self.shape) {
            Ordering::Greater
        } else if self.position < other.position {
            Ordering::Less
        } else if self.position > other.position {
            Ordering::Greater
        } else {
            Ordering::Equal
        }
    }

    proof fn lemma_ranking_is_consistent(a: ShapeAt<'a>, b: ShapeAt<'a>, c: ShapeAt<'a>) {
        lemma_shapes_are_ordered(a.shape@, b.shape@);
        lemma_shapes_are_ordered(b.shape@, c.shape@);
        lemma_shapes_are_ordered(a.shape@, c.shape@);
        lemma_shape_order_is_strict(a.shape@, b.shape@);
        lemma_shape_order_is_strict(b.shape@, c.shape@);
        lemma_shape_order_is_strict(a.shape@, c.shape@);
        lemma_shape_order_is_strict(a.shape@, a.shape@);
        lemma_shape_order_is_transitive(a.shape@, b.shape@, c.shape@);
        lemma_shape_order_is_transitive(c.shape@, b.shape@, a.shape@);
    }
}

/// Sorts positions in a list of shapes: into the order of the shapes, with
/// the positions of equal shapes in ascending order.
pub fn sort_positions(order: &mut Vec<usize>, shapes: &Vec<Pattern>)
    requires
        positions_within(shapes@, old(order)@),
    ensures
        final(order)@.len() == old(order)@.len(),
        forall|p: usize| final(order)@.contains(p) <==> old(order)@.contains(p),
        old(order)@.no_duplicates() ==> final(order)@.no_duplicates(),
        positions_sorted(shape_views(shapes@), final(order)@),
{
    let ghost before = order@;
    let count = order.len();
    let mut keyed: Vec<ShapeAt> = Vec::with_capacity(count);
    let mut k: usize = 0;
    while k < count
        invariant
            k <= count,
            count == before.len(),
            order@ == before,
            positions_within(shapes@, before),
            keyed@.len() == k,
            forall|x: int|
                0 <= x < k ==> (#[trigger] keyed@[x]).position == before[x] && *keyed@[x].shape
                    == shapes@[before[x] as int],
        decreases count - k,
    {
        let position = order[k];
        keyed.push(ShapeAt { shape: &shapes[position], position });
        k += 1;
    }
    let ghost unsorted = keyed@;
    sort_ranked(&mut keyed);
    let ghost sorted = keyed@;
    proof {
        vstd::seq_lib::to_multiset_len(unsorted);
        vstd::seq_lib::to_multiset_len(sorted);
        assert forall|x: int| 0 <= x < sorted.len() implies unsorted.contains(
            #[trigger] sorted[x],
        ) by {
            assert(sorted.contains(sorted[x]));
            vstd::seq_lib::to_multiset_contains(sorted, sorted[x]);
            vstd::seq_lib::to_multiset_contains(unsorted, sorted[x]);
        }
        assert forall|x: int| 0 <= x < unsorted.len() implies sorted.contains(
            #[trigger] unsorted[x],
        ) by {
            assert(unsorted.contains(unsorted[x]));
            vstd::seq_lib::to_multiset_contains(sorted, unsorted[x]);
            vstd::seq_lib::to_multiset_contains(unsorted, unsorted[x]);
        }
    }
    let mut sorted_order: Vec<usize> = Vec::with_capacity(count);
    let mut k: usize = 0;
    while k < count
        invariant
            k <= count,
            count == sorted.len(),
            keyed@ == sorted,
            sorted_order@.len() == k,
            forall|x: int| 0 <= x < k ==> #[trigger] sorted_order@[x] == sorted[x].position,
        decreases count - k,
    {
        sorted_order.push(keyed[k].position);
        k += 1;
    }
    *order = sorted_order;
    proof {
        let after = order@;
        let views = shape_views(shapes@);
        assert forall|x: int| 0 <= x < sorted.len() implies (#[trigger] sorted[x]).position
            < shapes@.len() && *sorted[x].shape == shapes@[sorted[x].position as int] by {
            let m = choose|m: int| 0 <= m < unsorted.len() && unsorted[m] == sorted[x];
            assert(unsorted[m].position == before[m]);
        }
        assert forall|p: usize| after.contains(p) <==> before.contains(p) by {
            if after.contains(p) {
                let x = choose|x: int| 0 <= x < after.len() && after[x] == p;
                let m = choose|m: int| 0 <= m < unsorted.len() && unsorted[m] == sorted[x];
                assert(before[m] == p);
            }
            if before.contains(p) {
                let m = choose|m: int| 0 <= m < before.len() && before[m] == p;
                assert(sorted.contains(unsorted[m]));
                let x = choose|x: int| 0 <= x < sorted.len() && sorted[x] == unsorted[m];
                assert(after[x] == p);
            }
        }
        if before.no_duplicates() {
            assert forall|x: int, y: int|
                0 <= x < unsorted.len() && 0 <= y < unsorted.len() && x != y implies unsorted[x]
                != unsorted[y] by {
                assert(unsorted[x].position == before[x]);
                assert(unsorted[y].position == before[y]);
            }
            unsorted.lemma_multiset_has_no_duplicates();
            sorted.lemma_multiset_has_no_duplicates_conv();
            assert forall|x: int, y: int|
                0 <= x < after.len() && 0 <= y < after.len() && x != y implies after[x]
                != after[y] by {
                assert(sorted[x] != sorted[y]);
                assert(*sorted[x].shape == shapes@[sorted[x].position as int]);
                assert(*sorted[y].shape == shapes@[sorted[y].position as int]);
            }
        }
        assert forall|i: int, j: int| 0 <= i < j < after.len() implies !position_lt(
            views,
            #[trigger] after[j],
            #[trigger] after[i],
        ) by {
            assert(!sorted[j].comes_before(sorted[i]));
            assert(*sorted[i].shape == shapes@[sorted[i].position as int]);
            assert(*sorted[j].shape == shapes@[sorted[j].position as int]);
            assert(views[after[i] as int] == shapes@[after[i] as int]@);
            assert(views[after[j] as int] == shapes@[after[j] as int]@);
        }
    }
}

} // verus!
