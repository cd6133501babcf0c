use posemir::point_set::point::Point;
use posemir::point_set::point::Point2Di64;
use std::cmp::Ordering;

#[test]
fn point_test_eq() {
    assert_eq!(Point2Di64 { x: 3, y: 1 }, Point2Di64 { x: 3, y: 1 });
    assert_ne!(Point2Di64 { x: 3, y: 1 }, Point2Di64 { x: 3, y: 2 });
}

#[test]
fn point_test_add() {
    let a = Point2Di64 { x: 1, y: 1 };
    let b = Point2Di64 { x: 2, y: 0 };
    assert_eq!(Point2Di64 { x: 3, y: 1 }, a + b);
}

#[test]
fn point_test_sub() {
    assert_eq!(
        Point2Di64 { x: -1, y: 1 },
        Point2Di64 { x: 1, y: 2 } - Point2Di64 { x: 2, y: 1 }
    );
}

#[test]
fn test_cmp_ints() {
    let a = Point2Di64 { x: -1, y: 0 };
    let b = Point2Di64 { x: -0, y: 0 };
    let c = Point2Di64 { x: -0, y: 1 };

    assert_eq!(Some(Ordering::Equal), a.partial_cmp(&a));
    assert_eq!(Some(Ordering::Less), a.partial_cmp(&b));
    assert_eq!(Some(Ordering::Greater), b.partial_cmp(&a));
    assert!(a <= a);
    assert!(a < b);
    assert!(b < c);
    assert!(c > a);
}

#[test]
fn point_test_cmp_ints() {
    let a = Point2Di64 { x: -1, y: 0 };
    let b = Point2Di64 { x: -0, y: 0 };
    let c = Point2Di64 { x: -0, y: 1 };

    assert!(a.precedes(&b));
    assert!(b.precedes(&c));
    assert!(!c.precedes(&a));
    assert!(!a.precedes(&a));
}

#[test]
fn point_test_component_access() {
    let b = Point2Di64 { x: 1, y: 2 };
    assert_eq!(2, b.dimensionality());
    assert_eq!(Some(1), b.component(0));
    assert_eq!(Some(2), b.component(1));
    assert_eq!(None, b.component(3));
}

#[test]
fn point_scaling_negates() {
    assert_eq!(Point2Di64 { x: -2, y: -1 }, Point2Di64 { x: 2, y: 1 } * -1);
    assert!(Point2Di64 { x: 0, y: 0 }.is_zero());
    assert!(!Point2Di64 { x: 0, y: 1 }.is_zero());
}

// Coordinates with a fractional part are written in halves.

#[test]
fn test_cmp() {
    let a = Point2Di64 { x: -2, y: 0 };
    let b = Point2Di64 { x: -1, y: 0 };
    let c = Point2Di64 { x: -1, y: 2 };

    assert_eq!(Some(Ordering::Equal), a.partial_cmp(&a));
    assert_eq!(Some(Ordering::Less), a.partial_cmp(&b));
    assert_eq!(Some(Ordering::Greater), b.partial_cmp(&a));
    assert!(a <= a);
    assert!(a < b);
    assert!(b < c);
    assert!(c > a);
}

#[test]
fn point_test_cmp_floats() {
    let a = Point2Di64 { x: -2, y: 0 };
    let b = Point2Di64 { x: -1, y: 0 };
    let c = Point2Di64 { x: -1, y: 2 };

    assert_eq!(Some(Ordering::Equal), a.partial_cmp(&a));
    assert_eq!(Some(Ordering::Less), a.partial_cmp(&b));
    assert_eq!(Some(Ordering::Greater), b.partial_cmp(&a));
    assert!(a <= a);
    assert!(a < b);
    assert!(b < c);
    assert!(c > a);

    assert!(a.precedes(&b));
    assert!(b.precedes(&c));
    assert!(!c.precedes(&a));
}
