use posemir::point_set::pattern::Pattern;
use posemir::point_set::point::Point2Di64;
use posemir::point_set::set::PointSet;
use posemir::search::exact_matcher::ExactMatcher;
use posemir::search::partial_matcher::PartialMatcher;
use posemir::search::pattern_matcher::PatternMatcher;

// Onsets are written in thousandths.
fn test_point_set() -> PointSet {
    let points = vec![
        Point2Di64 { x: 0, y: 72 },
        Point2Di64 { x: 250, y: 74 },
        Point2Di64 { x: 500, y: 72 },
        Point2Di64 { x: 875, y: 72 },
        Point2Di64 { x: 1000, y: 45 },
        Point2Di64 { x: 1000, y: 60 },
        Point2Di64 { x: 1250, y: 47 },
        Point2Di64 { x: 1250, y: 62 },
        Point2Di64 { x: 1500, y: 45 },
        Point2Di64 { x: 1875, y: 45 },
    ];

    PointSet::new(points)
}

#[test]
fn test_given_pattern_in_set_then_matches_found() {
    let point_set = test_point_set();
    let pattern_points = vec![
        &Point2Di64 { x: 0, y: 72 },
        &Point2Di64 { x: 250, y: 74 },
        &Point2Di64 { x: 500, y: 72 },
        &Point2Di64 { x: 875, y: 72 },
    ];
    let pattern = Pattern::new(&pattern_points);
    let matcher = ExactMatcher {};
    let indices = matcher.find_indices(&pattern, &point_set);

    assert_eq!(2, indices.len());
    assert_eq!(vec![0, 1, 2, 3], indices[0]);
    assert_eq!(vec![4, 6, 8, 9], indices[1]);

    let occurrences = matcher.find_occurrences(&pattern, &point_set);
    assert_eq!(2, occurrences.len());
    assert_eq!(
        Pattern::new(&vec![
            &Point2Di64 { x: 0, y: 72 },
            &Point2Di64 { x: 250, y: 74 },
            &Point2Di64 { x: 500, y: 72 },
            &Point2Di64 { x: 875, y: 72 },
        ]),
        occurrences[0]
    );
    assert_eq!(
        Pattern::new(&vec![
            &Point2Di64 { x: 1000, y: 45 },
            &Point2Di64 { x: 1250, y: 47 },
            &Point2Di64 { x: 1500, y: 45 },
            &Point2Di64 { x: 1875, y: 45 },
        ]),
        occurrences[1]
    )
}

#[test]
fn exact_matcher_test_given_pattern_not_in_set_then_no_matches_found() {
    let point_set = test_point_set();
    let pattern_points = vec![
        &Point2Di64 { x: 0, y: 72 },
        &Point2Di64 { x: 250, y: 74 },
        &Point2Di64 { x: 375, y: 72 },
    ];
    let pattern = Pattern::new(&pattern_points);
    let matcher = ExactMatcher {};

    assert!(matcher.find_indices(&pattern, &point_set).is_empty());
    assert!(matcher.find_occurrences(&pattern, &point_set).is_empty());
}

#[test]
fn test_given_pattern_in_set_then_exact_matches_found() {
    let point_set = test_point_set();
    let pattern_points = vec![
        &Point2Di64 { x: 0, y: 72 },
        &Point2Di64 { x: 250, y: 74 },
        &Point2Di64 { x: 500, y: 72 },
        &Point2Di64 { x: 875, y: 72 },
    ];
    let pattern = Pattern::new(&pattern_points);
    let matcher = PartialMatcher { min_match_size: 4 };
    let indices = matcher.find_indices(&pattern, &point_set);

    assert_eq!(2, indices.len());
    assert_eq!(vec![0, 1, 2, 3], indices[0]);
    assert_eq!(vec![4, 6, 8, 9], indices[1]);

    let occurrences = matcher.find_occurrences(&pattern, &point_set);
    assert_eq!(2, occurrences.len());
    assert_eq!(
        Pattern::new(&vec![
            &Point2Di64 { x: 0, y: 72 },
            &Point2Di64 { x: 250, y: 74 },
            &Point2Di64 { x: 500, y: 72 },
            &Point2Di64 { x: 875, y: 72 },
        ]),
        occurrences[0]
    );
    assert_eq!(
        Pattern::new(&vec![
            &Point2Di64 { x: 1000, y: 45 },
            &Point2Di64 { x: 1250, y: 47 },
            &Point2Di64 { x: 1500, y: 45 },
            &Point2Di64 { x: 1875, y: 45 },
        ]),
        occurrences[1]
    )
}

#[test]
fn test_given_pattern_in_set_then_partial_matches_found() {
    let point_set = test_point_set();
    let pattern_points = vec![
        &Point2Di64 { x: -1000, y: 10 },
        &Point2Di64 { x: 0, y: 72 },
        &Point2Di64 { x: 250, y: 74 },
        &Point2Di64 { x: 500, y: 72 },
        &Point2Di64 { x: 750, y: 73 },
        &Point2Di64 { x: 875, y: 72 },
    ];
    let pattern = Pattern::new(&pattern_points);
    let matcher = PartialMatcher { min_match_size: 4 };
    let indices = matcher.find_indices(&pattern, &point_set);

    assert_eq!(2, indices.len());
    assert_eq!(vec![0, 1, 2, 3], indices[0]);
    assert_eq!(vec![4, 6, 8, 9], indices[1]);

    let occurrences = matcher.find_occurrences(&pattern, &point_set);
    assert_eq!(2, occurrences.len());
    assert_eq!(
        Pattern::new(&vec![
            &Point2Di64 { x: 0, y: 72 },
            &Point2Di64 { x: 250, y: 74 },
            &Point2Di64 { x: 500, y: 72 },
            &Point2Di64 { x: 875, y: 72 },
        ]),
        occurrences[0]
    );
    assert_eq!(
        Pattern::new(&vec![
            &Point2Di64 { x: 1000, y: 45 },
            &Point2Di64 { x: 1250, y: 47 },
            &Point2Di64 { x: 1500, y: 45 },
            &Point2Di64 { x: 1875, y: 45 },
        ]),
        occurrences[1]
    )
}

#[test]
fn partial_matcher_test_given_pattern_not_in_set_then_no_matches_found() {
    let point_set = test_point_set();
    let pattern_points = vec![
        &Point2Di64 { x: 0, y: 72 },
        &Point2Di64 { x: 250, y: 74 },
        &Point2Di64 { x: 375, y: 72 },
    ];
    let pattern = Pattern::new(&pattern_points);
    let matcher = PartialMatcher { min_match_size: 3 };

    assert!(matcher.find_indices(&pattern, &point_set).is_empty());
    assert!(matcher.find_occurrences(&pattern, &point_set).is_empty());
}

#[test]
fn exact_matcher_finds_nothing_for_queries_without_room() {
    let point_set = PointSet::new(vec![Point2Di64 { x: 0, y: 0 }, Point2Di64 { x: 1, y: 0 }]);
    let matcher = ExactMatcher {};
    let longer = Pattern::new(&vec![
        &Point2Di64 { x: 0, y: 0 },
        &Point2Di64 { x: 1, y: 0 },
        &Point2Di64 { x: 2, y: 0 },
    ]);
    assert!(matcher.find_indices(&longer, &point_set).is_empty());
    assert!(matcher
        .find_indices(&Pattern::new(&Vec::new()), &point_set)
        .is_empty());
    let single = Pattern::new(&vec![&Point2Di64 { x: 7, y: 7 }]);
    assert_eq!(
        vec![vec![0], vec![1]],
        matcher.find_indices(&single, &point_set)
    );
}
