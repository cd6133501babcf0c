use posemir::point_set::point::Point2Di64;
use posemir::point_set::set::PointSet;

// Coordinates with a fractional part are written in tenths.

#[test]
fn point_set_test_constructor_and_access() {
    let points = vec![
        Point2Di64 { x: 21, y: 1 },
        Point2Di64 { x: -10, y: 0 },
        Point2Di64 { x: -10, y: 0 },
        Point2Di64 { x: -10, y: 5 },
    ];
    let point_set = PointSet::new(points);

    assert_eq!(3, point_set.len());
    assert_eq!(Point2Di64 { x: -10, y: 0 }, point_set[0]);
    assert_eq!(Point2Di64 { x: -10, y: 5 }, point_set[1]);
    assert_eq!(Point2Di64 { x: 21, y: 1 }, point_set[2]);
}

#[test]
fn point_set_test_iteration() {
    let points = vec![
        Point2Di64 { x: 21, y: 1 },
        Point2Di64 { x: -10, y: 0 },
        Point2Di64 { x: -10, y: 5 },
        Point2Di64 { x: -20, y: 5 },
    ];

    let mut sorted_points = points.to_vec();
    sorted_points.sort();

    let point_set = PointSet::new(points);

    for (i, point) in point_set.to_vec().iter().enumerate() {
        assert_eq!(sorted_points[i], *point);
    }
    assert_eq!(4, point_set.to_vec().len());
}

#[test]
fn point_set_test_get_pattern() {
    let points = vec![
        Point2Di64 { x: 21, y: 1 },
        Point2Di64 { x: -10, y: 0 },
        Point2Di64 { x: -10, y: 5 },
        Point2Di64 { x: -20, y: 5 },
    ];

    let mut sorted_points = points.to_vec();
    sorted_points.sort();

    let point_set = PointSet::new(points);

    let pattern = point_set.get_pattern(&vec![0, 3]);
    assert_eq!(2, pattern.len());
    assert_eq!(sorted_points[0], pattern[0]);
    assert_eq!(sorted_points[3], pattern[1]);
}

#[test]
fn point_set_get_pattern_keeps_the_order_of_the_indices() {
    let point_set = PointSet::new(vec![
        Point2Di64 { x: 1, y: 0 },
        Point2Di64 { x: 2, y: 0 },
        Point2Di64 { x: 3, y: 0 },
    ]);
    let pattern = point_set.get_pattern(&vec![2, 0, 2]);
    assert_eq!(3, pattern.len());
    assert_eq!(Point2Di64 { x: 3, y: 0 }, pattern[0]);
    assert_eq!(Point2Di64 { x: 1, y: 0 }, pattern[1]);
    assert_eq!(Point2Di64 { x: 3, y: 0 }, pattern[2]);
}

#[test]
fn point_set_test_intersect() {
    let points = vec![
        Point2Di64 { x: 1, y: 1 },
        Point2Di64 { x: 2, y: 1 },
        Point2Di64 { x: 3, y: 2 },
        Point2Di64 { x: 4, y: 2 },
    ];

    let point_set_a = PointSet::new(points);
    let point_set_b = point_set_a.translate(&(Point2Di64 { x: 2, y: 1 } * -1));

    let intersection = point_set_a.intersect(&point_set_b);

    assert_eq!(2, intersection.len());
    assert_eq!(Point2Di64 { x: 1, y: 1 }, intersection[0]);
    assert_eq!(Point2Di64 { x: 2, y: 1 }, intersection[1]);
}

#[test]
fn test_difference() {
    let point_set_a = PointSet::new(vec![
        Point2Di64 { x: 1, y: 1 },
        Point2Di64 { x: 2, y: 1 },
        Point2Di64 { x: 3, y: 2 },
        Point2Di64 { x: 4, y: 2 },
    ]);

    // The last point is written in halves of the second coordinate.
    let point_set_b = PointSet::new(vec![
        Point2Di64 { x: 2, y: 1 },
        Point2Di64 { x: 3, y: 1 },
        Point2Di64 { x: 3, y: 2 },
        Point2Di64 { x: 4, y: 3 },
    ]);

    let diff = point_set_a.difference(&point_set_b);
    assert_eq!(2, diff.len());
    assert_eq!(Point2Di64 { x: 1, y: 1 }, diff[0]);
    assert_eq!(Point2Di64 { x: 4, y: 2 }, diff[1]);
}

fn sample_a() -> PointSet {
    PointSet::new(vec![
        Point2Di64 { x: 5, y: 5 },
        Point2Di64 { x: 1, y: 1 },
        Point2Di64 { x: 3, y: 2 },
        Point2Di64 { x: 1, y: 2 },
        Point2Di64 { x: 9, y: -1 },
    ])
}

fn sample_b() -> PointSet {
    PointSet::new(vec![
        Point2Di64 { x: 3, y: 2 },
        Point2Di64 { x: 0, y: 0 },
        Point2Di64 { x: 9, y: -1 },
        Point2Di64 { x: 9, y: 0 },
    ])
}

#[test]
fn point_set_is_strictly_ascending_without_duplicates() {
    let point_set = PointSet::new(vec![
        Point2Di64 { x: 2, y: 2 },
        Point2Di64 { x: 2, y: 1 },
        Point2Di64 { x: 2, y: 2 },
        Point2Di64 { x: -7, y: 9 },
        Point2Di64 { x: 2, y: 1 },
        Point2Di64 { x: -7, y: 9 },
    ]);
    let points = point_set.to_vec();
    assert_eq!(
        vec![
            Point2Di64 { x: -7, y: 9 },
            Point2Di64 { x: 2, y: 1 },
            Point2Di64 { x: 2, y: 2 }
        ],
        points
    );
    for i in 1..points.len() {
        assert!(points[i - 1] < points[i]);
    }
}

#[test]
fn point_set_intersection_commutes() {
    let a = sample_a();
    let b = sample_b();
    let left = a.intersect(&b);
    let right = b.intersect(&a);
    assert!(left.equals(&right));
    assert_eq!(
        vec![Point2Di64 { x: 3, y: 2 }, Point2Di64 { x: 9, y: -1 }],
        left.to_vec()
    );
}

#[test]
fn point_set_difference_with_itself_is_empty() {
    let a = sample_a();
    assert!(a.difference(&a).is_empty());
    assert_eq!(0, a.difference(&a).len());
}

#[test]
fn point_set_difference_holds_no_point_of_the_other() {
    let a = sample_a();
    let b = sample_b();
    let diff = a.difference(&b);
    assert_eq!(
        vec![
            Point2Di64 { x: 1, y: 1 },
            Point2Di64 { x: 1, y: 2 },
            Point2Di64 { x: 5, y: 5 }
        ],
        diff.to_vec()
    );
    for point in diff.to_vec().iter() {
        assert!(b.find_index(point).is_err());
    }
}

#[test]
fn point_set_union_merges() {
    let a = sample_a();
    let b = sample_b();
    let all = a.union(&b);
    assert_eq!(
        vec![
            Point2Di64 { x: 0, y: 0 },
            Point2Di64 { x: 1, y: 1 },
            Point2Di64 { x: 1, y: 2 },
            Point2Di64 { x: 3, y: 2 },
            Point2Di64 { x: 5, y: 5 },
            Point2Di64 { x: 9, y: -1 },
            Point2Di64 { x: 9, y: 0 }
        ],
        all.to_vec()
    );
    assert!(a.union(&PointSet::new(Vec::new())).equals(&a));
}

#[test]
fn point_set_find_index_gives_position_or_insertion_point() {
    let a = sample_a();
    assert_eq!(Ok(0), a.find_index(&Point2Di64 { x: 1, y: 1 }));
    assert_eq!(Ok(3), a.find_index(&Point2Di64 { x: 5, y: 5 }));
    assert_eq!(Ok(4), a.find_index(&Point2Di64 { x: 9, y: -1 }));
    assert_eq!(Err(0), a.find_index(&Point2Di64 { x: 0, y: 7 }));
    assert_eq!(Err(2), a.find_index(&Point2Di64 { x: 2, y: 0 }));
    assert_eq!(Err(5), a.find_index(&Point2Di64 { x: 9, y: 0 }));
    assert_eq!(
        Err(0),
        PointSet::new(Vec::new()).find_index(&Point2Di64 { x: 0, y: 0 })
    );
}

#[test]
fn point_set_translation_keeps_the_order() {
    let a = sample_a();
    let moved = a.translate(&Point2Di64 { x: -10, y: 3 });
    assert_eq!(
        vec![
            Point2Di64 { x: -9, y: 4 },
            Point2Di64 { x: -9, y: 5 },
            Point2Di64 { x: -7, y: 5 },
            Point2Di64 { x: -5, y: 8 },
            Point2Di64 { x: -1, y: 2 }
        ],
        moved.to_vec()
    );
}

#[test]
fn point_set_translatable_points_are_the_intersection_with_the_moved_set() {
    let points = PointSet::new(vec![
        Point2Di64 { x: 1, y: 1 },
        Point2Di64 { x: 2, y: 1 },
        Point2Di64 { x: 3, y: 2 },
        Point2Di64 { x: 4, y: 2 },
    ]);
    let translator = Point2Di64 { x: 2, y: 1 };
    let movable = points.translatable_points(&translator);
    let by_intersection = points.intersect(&points.translate(&(translator * -1)));
    assert!(movable.equals(&by_intersection));
    assert_eq!(2, movable.len());
}
