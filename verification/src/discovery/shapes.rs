//! The order of pattern shapes.

use crate::point_set::pattern::seq_lex_lt;
use crate::point_set::pattern::shape_lt;
use crate::point_set::point::Point2Di64;
use vstd::prelude::*;

verus! {

/// No shape comes before itself, and no two shapes come before each other.
pub proof fn lemma_shape_order_is_strict(a: Seq<Point2Di64>, b: Seq<Point2Di64>)
    ensures
        !(shape_lt(a, b) && shape_lt(b, a)),
        a == b ==> !shape_lt(a, b),
{
    if seq_lex_lt(a, b) && seq_lex_lt(b, a) && a.len() == b.len() {
        let k = choose|k: int|
            0 <= k < a.len() && k < b.len() && a.subrange(0, k) == b.subrange(0, k) && (
            #[trigger] a[k]).lex_lt(b[k]);
        let m = choose|m: int|
            0 <= m < b.len() && m < a.len() && b.subrange(0, m) == a.subrange(0, m) && (
            #[trigger] b[m]).lex_lt(a[m]);
        if k < m {
            assert(b.subrange(0, m)[k] == b[k]);
            assert(a.subrange(0, m)[k] == a[k]);
        } else if m < k {
            assert(a.subrange(0, k)[m] == a[m]);
            assert(b.subrange(0, k)[m] == b[m]);
        }
    }
    if a == b && seq_lex_lt(a, b) {
        let k = choose|k: int|
            0 <= k < a.len() && k < b.len() && a.subrange(0, k) == b.subrange(0, k) && (
            #[trigger] a[k]).lex_lt(b[k]);
    }
}

/// The order of shapes is transitive.
pub proof fn lemma_shape_order_is_transitive(
    a: Seq<Point2Di64>,
    b: Seq<Point2Di64>,
    c: Seq<Point2Di64>,
)
    ensures
        shape_lt(a, b) && shape_lt(b, c) ==> shape_lt(a, c),
{
    if shape_lt(a, b) && shape_lt(b, c) && a.len() == b.len() && b.len() == c.len() {
        let k = choose|k: int|
            0 <= k < a.len() && k < b.len() && a.subrange(0, k) == b.subrange(0, k) && (
            #[trigger] a[k]).lex_lt(b[k]);
        let m = choose|m: int|
            0 <= m < b.len() && m < c.len() && b.subrange(0, m) == c.subrange(0, m) && (
            #[trigger] b[m]).lex_lt(c[m]);
        let first = if k < m {
            k
        } else {
            m
        };
        assert forall|x: int| 0 <= x < first implies a[x] == c[x] by {
            assert(a.subrange(0, k)[x] == a[x]);
            assert(b.subrange(0, k)[x] == b[x]);
            assert(b.subrange(0, m)[x] == b[x]);
            assert(c.subrange(0, m)[x] == c[x]);
        }
        assert(a.subrange(0, first) =~= c.subrange(0, first));
        if k < m {
            assert(b.subrange(0, m)[k] == b[k]);
            assert(c.subrange(0, m)[k] == c[k]);
        } else if m < k {
            assert(a.subrange(0, k)[m] == a[m]);
            assert(b.subrange(0, k)[m] == b[m]);
        }
        assert(a[first].lex_lt(c[first]));
    }
}

} // verus!
