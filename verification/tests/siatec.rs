use posemir::discovery::algorithm::TecCallback;
use posemir::discovery::algorithm::TecAlgorithm;
use posemir::discovery::siatec::Siatec;
use posemir::point_set::pattern::Pattern;
use posemir::point_set::point::Point2Di64;
use posemir::point_set::set::PointSet;
use posemir::point_set::tec::Tec;

#[test]
fn siatec_test_with_minimal_number_of_mtps() {
    // Create a point set where the number of MTPs is minimal.
    let mut points = Vec::new();
    let a = Point2Di64 { x: 1, y: 1 };
    points.push(a);
    let b = Point2Di64 { x: 2, y: 1 };
    points.push(b);
    let c = Point2Di64 { x: 3, y: 1 };
    points.push(c);
    let d = Point2Di64 { x: 4, y: 1 };
    points.push(d);

    let point_set = PointSet::new(points);
    let siatec = Siatec {
        remove_duplicates: true,
    };
    let mut tecs = siatec.compute_tecs(&point_set);
    tecs.sort_by(|a, b| a.pattern.len().cmp(&b.pattern.len()));

    assert_eq!(3, tecs.len());
    assert_eq!(
        Tec {
            pattern: Pattern::new(&vec![&a]),
            translators: vec![
                Point2Di64 { x: 1, y: 0 },
                Point2Di64 { x: 2, y: 0 },
                Point2Di64 { x: 3, y: 0 }
            ],
        },
        tecs[0]
    );
    assert_eq!(
        Tec {
            pattern: Pattern::new(&vec![&a, &b]),
            translators: vec![Point2Di64 { x: 1, y: 0 }, Point2Di64 { x: 2, y: 0 }],
        },
        tecs[1]
    );
    assert_eq!(
        Tec {
            pattern: Pattern::new(&vec![&a, &b, &c]),
            translators: vec![Point2Di64 { x: 1, y: 0 }],
        },
        tecs[2]
    );
}

#[test]
fn siatec_without_duplicate_removal_gives_one_tec_per_mtp() {
    let point_set = PointSet::new(vec![
        Point2Di64 { x: 0, y: 0 },
        Point2Di64 { x: 1, y: 0 },
        Point2Di64 { x: 1, y: 1 },
        Point2Di64 { x: 2, y: 1 },
    ]);
    let siatec = Siatec {
        remove_duplicates: false,
    };
    let tecs = siatec.compute_tecs(&point_set);
    // The forward differences are (0,1), (1,0), (1,1), (2,1).
    assert_eq!(4, tecs.len());
    assert_eq!(
        Tec {
            pattern: Pattern::new(&vec![&Point2Di64 { x: 1, y: 0 }]),
            translators: vec![
                Point2Di64 { x: -1, y: 0 },
                Point2Di64 { x: 0, y: 1 },
                Point2Di64 { x: 1, y: 1 }
            ],
        },
        tecs[0]
    );
    assert_eq!(
        Tec {
            pattern: Pattern::new(&vec![&Point2Di64 { x: 0, y: 0 }, &Point2Di64 { x: 1, y: 1 }]),
            translators: vec![Point2Di64 { x: 1, y: 0 }],
        },
        tecs[1]
    );
}

#[test]
fn siatec_of_small_sets_is_empty() {
    let with = Siatec {
        remove_duplicates: true,
    };
    let without = Siatec {
        remove_duplicates: false,
    };
    assert_eq!(0, with.compute_tecs(&PointSet::new(Vec::new())).len());
    assert_eq!(0, without.compute_tecs(&PointSet::new(Vec::new())).len());
    let single = PointSet::new(vec![Point2Di64 { x: 5, y: 7 }]);
    assert_eq!(0, with.compute_tecs(&single).len());
    assert_eq!(0, without.compute_tecs(&single).len());
}

#[test]
fn siatec_hands_each_tec_to_the_callback_in_order() {
    let point_set = PointSet::new(vec![
        Point2Di64 { x: 1, y: 1 },
        Point2Di64 { x: 2, y: 1 },
        Point2Di64 { x: 3, y: 1 },
        Point2Di64 { x: 4, y: 1 },
    ]);
    let siatec = Siatec {
        remove_duplicates: true,
    };
    let mut seen: Vec<Tec> = Vec::new();
    let mut output = TecCallback::new(|tec| seen.push(tec));
    siatec.compute_tecs_to_output(&point_set, &mut output);
    let eager = siatec.compute_tecs(&point_set);
    assert_eq!(3, seen.len());
    assert_eq!(eager.len(), seen.len());
    for i in 0..seen.len() {
        assert_eq!(eager[i].pattern, seen[i].pattern);
        assert_eq!(eager[i].translators, seen[i].translators);
    }
}
