use posemir::discovery::algorithm::TecAlgorithm;
use posemir::discovery::siatec_c::SiatecC;
use posemir::point_set::mtp::Mtp;
use posemir::point_set::pattern::Pattern;
use posemir::point_set::point::Point2Di64;
use posemir::point_set::set::PointSet;
use posemir::point_set::tec::Tec;

#[test]
fn siatec_c_test_with_minimal_number_of_mtps() {
    // Create a point set where the number of MTPs is minimal.
    let mut points = Vec::new();
    let a = Point2Di64 { x: 1, y: 1 };
    points.push(a);
    let b = Point2Di64 { x: 2, y: 1 };
    points.push(b);
    let c = Point2Di64 { x: 3, y: 1 };
    points.push(c);
    let d = Point2Di64 { x: 4, y: 1 };
    points.push(d);

    let point_set = PointSet::new(points);
    let siatec_c = SiatecC { max_ioi: 2 };
    let mut tecs = siatec_c.compute_tecs(&point_set);
    tecs.sort_by(|a, b| a.pattern.len().cmp(&b.pattern.len()));

    assert_eq!(2, tecs.len());
    assert_eq!(
        Tec {
            pattern: Pattern::new(&vec![&a, &b]),
            translators: vec![Point2Di64 { x: 1, y: 0 }, Point2Di64 { x: 2, y: 0 }],
        },
        tecs[0]
    );
    assert_eq!(
        Tec {
            pattern: Pattern::new(&vec![&a, &b, &c]),
            translators: vec![Point2Di64 { x: 1, y: 0 }],
        },
        tecs[1]
    );
}

#[test]
fn siatec_c_test_with_gap_and_minimal_number_of_mtps() {
    // Create a point set where the number of MTPs is minimal.
    let mut points = Vec::new();
    let a = Point2Di64 { x: 1, y: 1 };
    points.push(a);
    let b = Point2Di64 { x: 2, y: 1 };
    points.push(b);
    let c = Point2Di64 { x: 5, y: 1 };
    points.push(c);
    let d = Point2Di64 { x: 6, y: 1 };
    points.push(d);

    let point_set = PointSet::new(points);
    let siatec_c = SiatecC { max_ioi: 2 };
    let mut tecs = siatec_c.compute_tecs(&point_set);

    SiatecC::remove_translational_duplicates(&mut tecs);

    assert_eq!(1, tecs.len());
    assert_eq!(
        Tec {
            pattern: Pattern::new(&vec![&a, &b]),
            translators: vec![Point2Di64 { x: 4, y: 0 }],
        },
        tecs[0]
    );
}

#[test]
fn siatec_c_test_with_gaps_and_minimal_number_of_mtps() {
    // Create a point set where the number of MTPs is minimal.
    let mut points = Vec::new();
    let a = Point2Di64 { x: 1, y: 1 };
    points.push(a);
    let b = Point2Di64 { x: 2, y: 1 };
    points.push(b);
    let c = Point2Di64 { x: 4, y: 1 };
    points.push(c);
    let d = Point2Di64 { x: 7, y: 1 };
    points.push(d);
    let e = Point2Di64 { x: 8, y: 1 };
    points.push(e);

    let point_set = PointSet::new(points);
    let siatec_c = SiatecC { max_ioi: 2 };
    let mut tecs = siatec_c.compute_tecs(&point_set);

    SiatecC::remove_translational_duplicates(&mut tecs);

    assert_eq!(1, tecs.len());
    assert_eq!(
        Tec {
            pattern: Pattern::new(&vec![&a, &b]),
            translators: vec![Point2Di64 { x: 6, y: 0 }],
        },
        tecs[0]
    );
}

#[test]
fn test_splitting_on_ioi() {
    let mut mtp_triples: Vec<(Mtp, Vec<usize>, Vec<usize>)> = Vec::new();
    // The largest interval that is no gap: one and a half, written as an
    // integer, is one.
    let max_ioi = 1;

    mtp_triples.push((
        Mtp {
            translator: Point2Di64 { x: 1, y: 1 },
            pattern: Pattern::new(&vec![
                &Point2Di64 { x: 0, y: 0 },
                &Point2Di64 { x: 1, y: 0 },
                &Point2Di64 { x: 10, y: 0 },
                &Point2Di64 { x: 11, y: 0 },
            ]),
        },
        vec![0, 1, 2, 3],
        vec![10, 11, 12, 13],
    ));

    mtp_triples.push((
        Mtp {
            translator: Point2Di64 { x: 0, y: 0 },
            pattern: Pattern::new(&vec![
                &Point2Di64 { x: 100, y: 0 },
                &Point2Di64 { x: 101, y: 0 },
            ]),
        },
        vec![100, 101],
        vec![110, 111],
    ));

    let split_triples = SiatecC::split_mtps_on_ioi(&mtp_triples, max_ioi);
    assert_eq!(3, split_triples.len());

    assert!(split_triples.contains(&(
        Pattern::new(&vec![&Point2Di64 { x: 0, y: 0 }, &Point2Di64 { x: 1, y: 0 }]),
        vec![0, 1],
        vec![10, 11]
    )));

    assert!(split_triples.contains(&(
        Pattern::new(&vec![&Point2Di64 { x: 10, y: 0 }, &Point2Di64 { x: 11, y: 0 }]),
        vec![2, 3],
        vec![12, 13]
    )));

    assert!(split_triples.contains(&(
        Pattern::new(&vec![
            &Point2Di64 { x: 100, y: 0 },
            &Point2Di64 { x: 101, y: 0 }
        ]),
        vec![100, 101],
        vec![110, 111]
    )));
}

#[test]
fn siatec_c_splits_come_longest_first() {
    let mut mtp_triples: Vec<(Mtp, Vec<usize>, Vec<usize>)> = Vec::new();
    mtp_triples.push((
        Mtp {
            translator: Point2Di64 { x: 1, y: 0 },
            pattern: Pattern::new(&vec![
                &Point2Di64 { x: 0, y: 0 },
                &Point2Di64 { x: 9, y: 0 },
                &Point2Di64 { x: 10, y: 0 },
                &Point2Di64 { x: 11, y: 0 },
                &Point2Di64 { x: 20, y: 0 },
                &Point2Di64 { x: 21, y: 0 },
            ]),
        },
        vec![0, 1, 2, 3, 4, 5],
        vec![6, 7, 8, 9, 10, 11],
    ));
    let split_triples = SiatecC::split_mtps_on_ioi(&mtp_triples, 2);
    assert_eq!(3, split_triples.len());
    assert_eq!(vec![1, 2, 3], split_triples[0].1);
    assert_eq!(vec![10, 11], split_triples[1].2);
    assert_eq!(vec![0], split_triples[2].1);
}

#[test]
fn siatec_c_index_groups_pairs_by_difference() {
    let point_set = PointSet::new(vec![
        Point2Di64 { x: 1, y: 1 },
        Point2Di64 { x: 2, y: 1 },
        Point2Di64 { x: 5, y: 1 },
        Point2Di64 { x: 6, y: 1 },
    ]);
    let index = SiatecC { max_ioi: 3 }.compute_diff_index(&point_set);
    assert_eq!(
        vec![
            (Point2Di64 { x: 1, y: 0 }, vec![(0, 1), (2, 3)]),
            (Point2Di64 { x: 3, y: 0 }, vec![(1, 2)])
        ],
        index
    );
    assert_eq!(
        0,
        SiatecC::find_indices(&index, &Point2Di64 { x: 1, y: 0 })
    );
    assert_eq!(
        1,
        SiatecC::find_indices(&index, &Point2Di64 { x: 3, y: 0 })
    );
}

#[test]
fn siatec_c_matches_index_pairs_both_ways() {
    let pairs = vec![(0, 3), (2, 5), (4, 6), (7, 9)];
    assert_eq!(
        vec![5, 9],
        SiatecC::match_index_pairs_forward(&vec![1, 2, 3, 7], &pairs)
    );
    assert_eq!(
        vec![0, 4],
        SiatecC::match_index_pairs_backward(&vec![3, 4, 6, 8], &pairs)
    );
    assert_eq!(
        0,
        SiatecC::match_index_pairs(&Vec::new(), &pairs, true).len()
    );
}

#[test]
fn siatec_c_of_small_sets_is_empty() {
    let siatec_c = SiatecC { max_ioi: 2 };
    assert_eq!(0, siatec_c.compute_tecs(&PointSet::new(Vec::new())).len());
    assert_eq!(
        0,
        siatec_c
            .compute_tecs(&PointSet::new(vec![Point2Di64 { x: 5, y: 7 }]))
            .len()
    );
}

#[test]
fn siatec_c_window_round_moves_the_windows() {
    let point_set = PointSet::new(vec![
        Point2Di64 { x: 1, y: 1 },
        Point2Di64 { x: 2, y: 1 },
        Point2Di64 { x: 5, y: 1 },
        Point2Di64 { x: 6, y: 1 },
    ]);
    let siatec_c = SiatecC { max_ioi: 2 };
    let mut targets = vec![0, 1, 2, 3];
    let mut bounds = siatec_c.init_window_upper_bounds(&point_set);
    assert_eq!(vec![3, 4, 7, 8], bounds);
    let diffs =
        siatec_c.compute_forward_diffs_within_window(&point_set, &mut targets, &mut bounds);
    assert_eq!(
        vec![
            (Point2Di64 { x: 1, y: 0 }, (0, 1)),
            (Point2Di64 { x: 1, y: 0 }, (2, 3))
        ],
        diffs
    );
    assert_eq!(vec![2, 2, 4, 3], targets);
    assert_eq!(vec![5, 6, 7, 8], bounds);
}
