use posemir::discovery::algorithm::MtpAlgorithm;
use posemir::discovery::siar::SiaR;
use posemir::point_set::mtp::Mtp;
use posemir::point_set::pattern::Pattern;
use posemir::point_set::point::Point2Di64;
use posemir::point_set::set::PointSet;

#[test]
fn siar_test_minimal_number_of_mtps() {
    // Create a point set where the number of MTPs is minimal.
    let mut points = Vec::new();
    let a = Point2Di64 { x: 1, y: 1 };
    points.push(a);
    let b = Point2Di64 { x: 2, y: 1 };
    points.push(b);
    let c = Point2Di64 { x: 3, y: 1 };
    points.push(c);
    let d = Point2Di64 { x: 4, y: 1 };
    points.push(d);

    let point_set = PointSet::new(points);
    let siar = SiaR { r: 3 };
    let mut mtps = siar.compute_mtps(&point_set);
    mtps.sort_by(|a, b| a.translator.cmp(&b.translator));

    assert_eq!(2, mtps.len());
    assert_eq!(
        mtps[0],
        Mtp {
            translator: Point2Di64 { x: 1, y: 0 },
            pattern: Pattern::new(&vec![&a, &b, &c])
        }
    );
    assert_eq!(
        mtps[1],
        Mtp {
            translator: Point2Di64 { x: 2, y: 0 },
            pattern: Pattern::new(&vec![&a, &b])
        }
    );
}

#[test]
fn siar_test_minimal_number_of_mtps_small_window() {
    // Create a point set where the number of MTPs is minimal.
    let mut points = Vec::new();
    let a = Point2Di64 { x: 1, y: 1 };
    points.push(a);
    let b = Point2Di64 { x: 2, y: 1 };
    points.push(b);
    let c = Point2Di64 { x: 3, y: 1 };
    points.push(c);
    let d = Point2Di64 { x: 4, y: 1 };
    points.push(d);

    let point_set = PointSet::new(points);
    let siar = SiaR { r: 1 };
    let mut mtps = siar.compute_mtps(&point_set);
    mtps.sort_by(|a, b| a.translator.cmp(&b.translator));

    assert_eq!(2, mtps.len());
    assert_eq!(
        mtps[0],
        Mtp {
            translator: Point2Di64 { x: 1, y: 0 },
            pattern: Pattern::new(&vec![&a, &b, &c])
        }
    );
    assert_eq!(
        mtps[1],
        Mtp {
            translator: Point2Di64 { x: 2, y: 0 },
            pattern: Pattern::new(&vec![&a, &b])
        }
    );
}

#[test]
fn siar_gives_the_most_frequent_difference_first() {
    let point_set = PointSet::new(vec![
        Point2Di64 { x: 1, y: 1 },
        Point2Di64 { x: 2, y: 1 },
        Point2Di64 { x: 3, y: 1 },
        Point2Di64 { x: 4, y: 1 },
    ]);
    let mtps = SiaR { r: 3 }.compute_mtps(&point_set);
    // Within the patterns the difference (1,0) occurs three times and the
    // difference (2,0) once.
    assert_eq!(Point2Di64 { x: 1, y: 0 }, mtps[0].translator);
    assert_eq!(Point2Di64 { x: 2, y: 0 }, mtps[1].translator);
    let frequencies = SiaR::compute_diff_frequencies(&vec![
        Point2Di64 { x: 1, y: 0 },
        Point2Di64 { x: 1, y: 0 },
        Point2Di64 { x: 1, y: 0 },
        Point2Di64 { x: 2, y: 0 },
    ]);
    assert_eq!(
        vec![
            (Point2Di64 { x: 1, y: 0 }, 3),
            (Point2Di64 { x: 2, y: 0 }, 1)
        ],
        frequencies
    );
}

#[test]
fn siar_frequencies_of_equally_frequent_differences_stay_in_order() {
    let frequencies = SiaR::compute_diff_frequencies(&vec![
        Point2Di64 { x: 0, y: 1 },
        Point2Di64 { x: 1, y: 0 },
        Point2Di64 { x: 1, y: 0 },
        Point2Di64 { x: 2, y: 0 },
        Point2Di64 { x: 3, y: 0 },
        Point2Di64 { x: 3, y: 0 },
    ]);
    assert_eq!(
        vec![
            (Point2Di64 { x: 1, y: 0 }, 2),
            (Point2Di64 { x: 3, y: 0 }, 2),
            (Point2Di64 { x: 0, y: 1 }, 1),
            (Point2Di64 { x: 2, y: 0 }, 1)
        ],
        frequencies
    );
    assert_eq!(0, SiaR::compute_diff_frequencies(&Vec::new()).len());
}

#[test]
fn siar_of_small_sets_is_empty() {
    assert_eq!(0, SiaR { r: 2 }.compute_mtps(&PointSet::new(Vec::new())).len());
    assert_eq!(
        0,
        SiaR { r: 2 }
            .compute_mtps(&PointSet::new(vec![Point2Di64 { x: 5, y: 7 }]))
            .len()
    );
    // A window of size zero holds no differences.
    assert_eq!(
        0,
        SiaR { r: 0 }
            .compute_mtps(&PointSet::new(vec![
                Point2Di64 { x: 5, y: 7 },
                Point2Di64 { x: 6, y: 7 }
            ]))
            .len()
    );
}
