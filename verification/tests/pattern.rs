use posemir::point_set::pattern::Pattern;
use posemir::point_set::point::Point2Di64;

// Coordinates with a fractional part are written in tenths.

#[test]
fn pattern_test_constructor_and_access() {
    let mut points = Vec::new();
    let a = Point2Di64 { x: 21, y: 1 };
    points.push(&a);
    let b = Point2Di64 { x: -10, y: 0 };
    points.push(&b);
    let c = Point2Di64 { x: -10, y: 5 };
    points.push(&c);
    let pattern = Pattern::new(&points);

    // Sort the points to test that modifying the given points does not
    // impact the contents of the pattern.
    points.sort();

    assert_eq!(3, pattern.len());
    assert_eq!(a, pattern[0]);
    assert_eq!(b, pattern[1]);
    assert_eq!(c, pattern[2]);
}

#[test]
fn pattern_test_iteration() {
    let mut points = Vec::new();
    let a = Point2Di64 { x: 21, y: 1 };
    points.push(&a);
    let b = Point2Di64 { x: -10, y: 0 };
    points.push(&b);
    let c = Point2Di64 { x: -10, y: 5 };
    points.push(&c);
    let d = Point2Di64 { x: -20, y: 5 };
    points.push(&d);

    let pattern = Pattern::new(&points);

    for (i, point) in pattern.to_vec().iter().enumerate() {
        assert_eq!(*points[i], *point);
    }
    assert_eq!(4, pattern.to_vec().len());
}

#[test]
fn pattern_test_equality() {
    let mut points = Vec::new();
    let a = Point2Di64 { x: 21, y: 1 };
    points.push(&a);
    let b = Point2Di64 { x: -10, y: 0 };
    points.push(&b);
    let c = Point2Di64 { x: -10, y: 5 };
    points.push(&c);
    let d = Point2Di64 { x: -20, y: 5 };
    points.push(&d);

    let pattern_a = Pattern::new(&points);
    let pattern_b = Pattern::new(&points);

    assert_eq!(pattern_a, pattern_b);
    assert!(pattern_a.equals(&pattern_b));

    let mut more_points = points.to_vec();
    let e = Point2Di64 { x: -11, y: 26 };
    more_points.push(&e);

    let pattern_c = Pattern::new(&more_points);
    assert_ne!(pattern_a, pattern_c);
    assert!(!pattern_a.equals(&pattern_c));
}

#[test]
fn pattern_test_vectorization_of_single_point_pattern() {
    let mut points = Vec::new();
    let a = Point2Di64 { x: 21, y: 1 };
    points.push(&a);

    let vectorized = Pattern::new(&points).vectorize();
    assert_eq!(0, vectorized.len());
}

#[test]
fn pattern_test_vectorization() {
    let mut points = Vec::new();
    let a = Point2Di64 { x: 21, y: 1 };
    points.push(&a);
    let b = Point2Di64 { x: -10, y: 0 };
    points.push(&b);
    let c = Point2Di64 { x: -10, y: 5 };
    points.push(&c);
    let d = Point2Di64 { x: -20, y: 5 };
    points.push(&d);

    let vectorized = Pattern::new(&points).vectorize();
    assert_eq!(3, vectorized.len());
    assert_eq!(b - a, vectorized[0]);
    assert_eq!(c - b, vectorized[1]);
    assert_eq!(d - c, vectorized[2]);
    assert_eq!(Point2Di64 { x: -31, y: -1 }, vectorized[0]);
}

#[test]
fn pattern_test_lex_comparison() {
    let mut points = Vec::new();
    let a = Point2Di64 { x: 21, y: 1 };
    points.push(&a);
    let b = Point2Di64 { x: -10, y: 0 };
    points.push(&b);
    let c = Point2Di64 { x: -10, y: 5 };
    points.push(&c);
    let pattern_a = Pattern::new(&points);

    let mut points = Vec::new();
    let a = Point2Di64 { x: 21, y: 1 };
    points.push(&a);
    let b = Point2Di64 { x: -10, y: 10 };
    points.push(&b);
    let pattern_b = Pattern::new(&points);

    assert!(!(pattern_a < pattern_a));
    assert!(pattern_a < pattern_b);
    assert!(!(pattern_a > pattern_b));

    assert!(!pattern_a.precedes(&pattern_a));
    assert!(pattern_a.precedes(&pattern_b));
    assert!(!pattern_b.precedes(&pattern_a));
}

#[test]
fn pattern_prefix_precedes_longer_pattern() {
    let a = Point2Di64 { x: 1, y: 1 };
    let b = Point2Di64 { x: 2, y: 1 };
    let shorter = Pattern::new(&vec![&a]);
    let longer = Pattern::new(&vec![&a, &b]);
    assert!(shorter.precedes(&longer));
    assert!(!longer.precedes(&shorter));
    assert!(shorter < longer);
}

#[test]
fn pattern_vectorization_of_empty_pattern_is_empty() {
    let empty = Pattern::new(&Vec::new());
    assert_eq!(0, empty.len());
    assert_eq!(0, empty.vectorize().len());
}

#[test]
fn pattern_translation_keeps_shape() {
    let a = Point2Di64 { x: 3, y: -4 };
    let b = Point2Di64 { x: 1, y: 7 };
    let c = Point2Di64 { x: 10, y: 0 };
    let pattern = Pattern::new(&vec![&a, &b, &c]);
    let moved = pattern.translate(&Point2Di64 { x: -5, y: 100 });
    assert_eq!(Point2Di64 { x: -2, y: 96 }, moved[0]);
    assert_eq!(Point2Di64 { x: -4, y: 107 }, moved[1]);
    assert_eq!(Point2Di64 { x: 5, y: 100 }, moved[2]);
    assert_eq!(pattern.vectorize(), moved.vectorize());
    // The pattern itself is left as it was.
    assert_eq!(a, pattern[0]);
}

#[test]
fn pattern_translation_by_zero_changes_nothing() {
    let a = Point2Di64 { x: 3, y: -4 };
    let b = Point2Di64 { x: 1, y: 7 };
    let pattern = Pattern::new(&vec![&a, &b]);
    assert_eq!(pattern, pattern.translate(&Point2Di64 { x: 0, y: 0 }));
}
