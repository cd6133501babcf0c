use posemir::discovery::algorithm::MtpAlgorithm;
use posemir::discovery::algorithm::MtpCallback;
use posemir::discovery::algorithm::MtpCollector;
use posemir::discovery::sia::Sia;
use posemir::point_set::mtp::Mtp;
use posemir::point_set::pattern::Pattern;
use posemir::point_set::point::Point2Di64;
use posemir::point_set::set::PointSet;

#[test]
fn sia_test_minimal_number_of_mtps() {
    // Create a point set where the number of MTPs is minimal.
    let mut points = Vec::new();
    let a = Point2Di64 { x: 1, y: 1 };
    points.push(a);
    let b = Point2Di64 { x: 2, y: 1 };
    points.push(b);
    let c = Point2Di64 { x: 3, y: 1 };
    points.push(c);
    let d = Point2Di64 { x: 4, y: 1 };
    points.push(d);

    let point_set = PointSet::new(points);
    let mut mtps = Sia {}.compute_mtps(&point_set);
    mtps.sort_by(|a, b| a.translator.cmp(&b.translator));

    assert_eq!(3, mtps.len());
    assert_eq!(
        mtps[0],
        Mtp {
            translator: Point2Di64 { x: 1, y: 0 },
            pattern: Pattern::new(&vec![&a, &b, &c])
        }
    );
    assert_eq!(
        mtps[1],
        Mtp {
            translator: Point2Di64 { x: 2, y: 0 },
            pattern: Pattern::new(&vec![&a, &b])
        }
    );
    assert_eq!(
        mtps[2],
        Mtp {
            translator: Point2Di64 { x: 3, y: 0 },
            pattern: Pattern::new(&vec![&a])
        }
    );
}

#[test]
fn sia_test_maximal_number_of_mtps() {
    // Create point set where all MTPs only have one point (maximize number of MTPs).
    let mut points = Vec::new();
    let a = Point2Di64 { x: 1, y: 1 };
    points.push(a);
    let b = Point2Di64 { x: 2, y: 2 };
    points.push(b);
    let c = Point2Di64 { x: 3, y: 4 };
    points.push(c);

    let point_set = PointSet::new(points);
    let mut mtps = Sia {}.compute_mtps(&point_set);
    mtps.sort_by(|a, b| a.translator.cmp(&b.translator));

    assert_eq!(3, mtps.len());
    assert_eq!(
        mtps[0],
        Mtp {
            translator: Point2Di64 { x: 1, y: 1 },
            pattern: Pattern::new(&vec![&a])
        }
    );
    assert_eq!(
        mtps[1],
        Mtp {
            translator: Point2Di64 { x: 1, y: 2 },
            pattern: Pattern::new(&vec![&b])
        }
    );
    assert_eq!(
        mtps[2],
        Mtp {
            translator: Point2Di64 { x: 2, y: 3 },
            pattern: Pattern::new(&vec![&a])
        }
    );
}

#[test]
fn sia_of_small_sets_is_empty() {
    assert_eq!(0, Sia {}.compute_mtps(&PointSet::new(Vec::new())).len());
    assert_eq!(
        0,
        Sia {}
            .compute_mtps(&PointSet::new(vec![Point2Di64 { x: 5, y: 7 }]))
            .len()
    );
}

#[test]
fn sia_streams_the_mtps_in_ascending_order_of_translator() {
    let point_set = PointSet::new(vec![
        Point2Di64 { x: 0, y: 0 },
        Point2Di64 { x: 1, y: 0 },
        Point2Di64 { x: 1, y: 1 },
        Point2Di64 { x: 2, y: 1 },
    ]);
    let mut collector = MtpCollector { mtps: Vec::new() };
    Sia {}.compute_mtps_to_output(&point_set, &mut collector);
    let translators: Vec<Point2Di64> = collector.mtps.iter().map(|m| m.translator).collect();
    assert_eq!(
        vec![
            Point2Di64 { x: 0, y: 1 },
            Point2Di64 { x: 1, y: 0 },
            Point2Di64 { x: 1, y: 1 },
            Point2Di64 { x: 2, y: 1 }
        ],
        translators
    );
    assert_eq!(
        Pattern::new(&vec![&Point2Di64 { x: 0, y: 0 }, &Point2Di64 { x: 1, y: 1 }]),
        collector.mtps[1].pattern
    );
}

#[test]
fn sia_hands_each_mtp_to_the_callback_in_order() {
    let point_set = PointSet::new(vec![
        Point2Di64 { x: 1, y: 1 },
        Point2Di64 { x: 2, y: 1 },
        Point2Di64 { x: 3, y: 1 },
        Point2Di64 { x: 4, y: 1 },
    ]);
    let mut seen: Vec<Mtp> = Vec::new();
    let mut output = MtpCallback::new(|mtp| seen.push(mtp));
    Sia {}.compute_mtps_to_output(&point_set, &mut output);
    let eager = Sia {}.compute_mtps(&point_set);
    assert_eq!(3, seen.len());
    assert_eq!(eager.len(), seen.len());
    for i in 0..seen.len() {
        assert_eq!(eager[i].translator, seen[i].translator);
        assert_eq!(eager[i].pattern, seen[i].pattern);
    }
}

#[test]
fn sia_gives_one_mtp_per_pair_where_all_differences_differ() {
    // Three points with three different differences between them: the
    // number of MTPs reaches the number of pairs, and cannot pass it.
    let point_set = PointSet::new(vec![
        Point2Di64 { x: 0, y: 0 },
        Point2Di64 { x: 1, y: 5 },
        Point2Di64 { x: 3, y: 1 },
    ]);
    let mtps = Sia {}.compute_mtps(&point_set);
    assert_eq!(3, mtps.len());
    let translators: Vec<Point2Di64> = mtps.iter().map(|m| m.translator).collect();
    assert_eq!(
        vec![
            Point2Di64 { x: 1, y: 5 },
            Point2Di64 { x: 2, y: -4 },
            Point2Di64 { x: 3, y: 1 },
        ],
        translators
    );
    assert_eq!(3, Sia::compute_differences(&point_set).len());
}
