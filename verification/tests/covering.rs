use posemir::discovery::algorithm::TecAlgorithm;
use posemir::discovery::cosiatec::Cosiatec;
use posemir::discovery::heuristic::bounding_box;
use posemir::discovery::heuristic::stats_of;
use posemir::discovery::heuristic::BoundingBox;
use posemir::discovery::heuristic::Ratio;
use posemir::discovery::siatec::Siatec;
use posemir::discovery::siatec_c::SiatecC;
use posemir::discovery::siatec_compress::SiatecCompress;
use posemir::point_set::pattern::Pattern;
use posemir::point_set::point::Point2Di64;
use posemir::point_set::set::PointSet;
use posemir::point_set::tec::Tec;

fn four_in_a_row() -> PointSet {
    PointSet::new(vec![
        Point2Di64 { x: 0, y: 0 },
        Point2Di64 { x: 1, y: 0 },
        Point2Di64 { x: 2, y: 0 },
        Point2Di64 { x: 3, y: 0 },
    ])
}

#[test]
fn cosiatec_test_simple_point_set() {
    let point_set = four_in_a_row();

    let siatec = Siatec {
        remove_duplicates: true,
    };
    let cosiatec = Cosiatec::with(siatec);

    let tecs = cosiatec.compute_tecs(&point_set);

    assert_eq!(1, tecs.len());
    let best_tec = &tecs[0];
    assert_eq!(
        Pattern::new(&vec![&Point2Di64 { x: 0, y: 0 }, &Point2Di64 { x: 1, y: 0 },]),
        best_tec.pattern
    );
    assert_eq!(vec![Point2Di64 { x: 2, y: 0 }], best_tec.translators);
}

#[test]
fn siatec_compress_test_simple_point_set() {
    let point_set = four_in_a_row();

    let siatec = Siatec {
        remove_duplicates: true,
    };
    let siatec_compress = SiatecCompress::with(siatec);

    let tecs = siatec_compress.compute_tecs(&point_set);
    let best_tec = &tecs[0];
    assert_eq!(
        Pattern::new(&vec![&Point2Di64 { x: 0, y: 0 }, &Point2Di64 { x: 1, y: 0 },]),
        best_tec.pattern
    );
    assert_eq!(vec![Point2Di64 { x: 2, y: 0 }], best_tec.translators);
}

fn tec_without_points() -> Tec {
    Tec {
        pattern: Pattern::new(&Vec::new()),
        translators: Vec::new(),
    }
}

#[test]
fn cosiatec_covers_points_that_no_pattern_takes_in() {
    // Three points in a row and one far off: the row is covered first.
    // Then a single point is left, which gives rise to no TEC: each of the
    // three rounds that remain puts out a TEC without points.
    let point_set = PointSet::new(vec![
        Point2Di64 { x: 0, y: 0 },
        Point2Di64 { x: 1, y: 0 },
        Point2Di64 { x: 2, y: 0 },
        Point2Di64 { x: 50, y: 7 },
    ]);
    let cosiatec = Cosiatec::with(Siatec {
        remove_duplicates: true,
    });
    let tecs = cosiatec.compute_tecs(&point_set);
    assert_eq!(
        vec![
            Tec {
                pattern: Pattern::new(&vec![&Point2Di64 { x: 0, y: 0 }, &Point2Di64 { x: 1, y: 0 }]),
                translators: vec![Point2Di64 { x: 1, y: 0 }],
            },
            tec_without_points(),
            tec_without_points(),
            tec_without_points(),
        ],
        tecs
    );
}

#[test]
fn cosiatec_puts_out_a_tec_in_every_round_that_finds_none() {
    // The two onsets lie further apart than the window is wide, so no
    // pattern is found in either round and both points stay uncovered.
    let point_set = PointSet::new(vec![
        Point2Di64 { x: 0, y: 0 },
        Point2Di64 { x: 5, y: 0 },
    ]);
    let cosiatec = Cosiatec::with(SiatecC { max_ioi: 1 });
    let tecs = cosiatec.compute_tecs(&point_set);
    assert_eq!(vec![tec_without_points(), tec_without_points()], tecs);
    assert!(tecs[0].covered_set().is_empty());
}

#[test]
fn cosiatec_stops_when_no_point_is_left() {
    // The first TEC covers the four points of the square, so fewer TECs
    // than points are put out.
    let point_set = PointSet::new(vec![
        Point2Di64 { x: 0, y: 0 },
        Point2Di64 { x: 0, y: 1 },
        Point2Di64 { x: 1, y: 0 },
        Point2Di64 { x: 1, y: 1 },
    ]);
    let cosiatec = Cosiatec::with(Siatec {
        remove_duplicates: true,
    });
    let tecs = cosiatec.compute_tecs(&point_set);
    assert_eq!(1, tecs.len());
    assert_eq!(point_set.to_vec(), tecs[0].covered_set().to_vec());
}

#[test]
fn cosiatec_of_the_empty_set_is_empty() {
    let cosiatec = Cosiatec::with(Siatec {
        remove_duplicates: true,
    });
    assert_eq!(0, cosiatec.compute_tecs(&PointSet::new(Vec::new())).len());
    assert_eq!(
        0,
        cosiatec
            .compute_tecs(&PointSet::new(vec![Point2Di64 { x: 5, y: 7 }]))
            .len()
    );
}

#[test]
fn siatec_compress_adds_a_tec_for_the_points_left() {
    // No TEC of these three points covers more new points than it has
    // points and translators, so all of them are left for the last TEC.
    let point_set = PointSet::new(vec![
        Point2Di64 { x: 0, y: 0 },
        Point2Di64 { x: 1, y: 5 },
        Point2Di64 { x: 3, y: 1 },
    ]);
    let compress = SiatecCompress::with(Siatec {
        remove_duplicates: true,
    });
    let tecs = compress.compute_tecs(&point_set);
    assert_eq!(
        vec![Tec {
            pattern: Pattern::new(&vec![&Point2Di64 { x: 0, y: 0 }]),
            translators: vec![Point2Di64 { x: 1, y: 5 }, Point2Di64 { x: 3, y: 1 }],
        }],
        tecs
    );
}

#[test]
fn siatec_compress_covers_all_points() {
    let point_set = PointSet::new(vec![
        Point2Di64 { x: 0, y: 0 },
        Point2Di64 { x: 1, y: 0 },
        Point2Di64 { x: 2, y: 0 },
        Point2Di64 { x: 3, y: 0 },
        Point2Di64 { x: 10, y: 3 },
        Point2Di64 { x: 17, y: -4 },
    ]);
    let compress = SiatecCompress::with(Siatec {
        remove_duplicates: false,
    });
    let tecs = compress.compute_tecs(&point_set);
    let mut covered = PointSet::new(Vec::new());
    for tec in tecs.iter() {
        covered = covered.union(&tec.covered_set());
    }
    assert!(covered.equals(&point_set));
}

#[test]
fn heuristic_values_of_a_tec() {
    let point_set = four_in_a_row();
    let tec = Tec {
        pattern: Pattern::new(&vec![&Point2Di64 { x: 0, y: 0 }, &Point2Di64 { x: 1, y: 0 }]),
        translators: vec![Point2Di64 { x: 2, y: 0 }],
    };
    let stats = stats_of(tec, &point_set);
    // Four points are covered by two points and one translator.
    assert_eq!(
        Ratio {
            numerator: 4,
            denominator: 3
        },
        stats.comp_ratio
    );
    // The bounding box of each occurrence holds two points of the set.
    assert_eq!(
        Ratio {
            numerator: 2,
            denominator: 2
        },
        stats.compactness
    );
    assert_eq!(4, stats.covered_set.len());
    assert_eq!(1, stats.pattern_width);
    assert_eq!(0, stats.pattern_area);
}

#[test]
fn heuristic_comparison_takes_the_first_criterion_that_decides() {
    let point_set = four_in_a_row();
    let pair = stats_of(
        Tec {
            pattern: Pattern::new(&vec![&Point2Di64 { x: 0, y: 0 }, &Point2Di64 { x: 1, y: 0 }]),
            translators: vec![Point2Di64 { x: 2, y: 0 }],
        },
        &point_set,
    );
    let triple = stats_of(
        Tec {
            pattern: Pattern::new(&vec![
                &Point2Di64 { x: 0, y: 0 },
                &Point2Di64 { x: 1, y: 0 },
                &Point2Di64 { x: 2, y: 0 },
            ]),
            translators: vec![Point2Di64 { x: 1, y: 0 }],
        },
        &point_set,
    );
    // The pair has the larger compression ratio, the triple the larger
    // pattern: each is better than the other.
    assert!(pair.is_better_than(&triple));
    assert!(triple.is_better_than(&pair));
    assert!(!pair.is_better_than(&pair));
}

#[test]
fn heuristic_ratios_compare_by_cross_multiplication() {
    let third = Ratio {
        numerator: 1,
        denominator: 3,
    };
    let half = Ratio {
        numerator: 2,
        denominator: 4,
    };
    let unbounded = Ratio {
        numerator: 1,
        denominator: 0,
    };
    assert!(half.exceeds(&third));
    assert!(!third.exceeds(&half));
    assert!(!half.exceeds(&half));
    assert!(unbounded.exceeds(&half));
    assert!(!half.exceeds(&unbounded));
    assert!(!unbounded.exceeds(&unbounded));
}

#[test]
fn heuristic_bounding_box_holds_all_points() {
    let pattern = Pattern::new(&vec![
        &Point2Di64 { x: 3, y: -1 },
        &Point2Di64 { x: -2, y: 4 },
        &Point2Di64 { x: 0, y: 9 },
    ]);
    let bb = bounding_box(&pattern);
    assert_eq!(
        Some(BoundingBox {
            lower_x: -2,
            lower_y: -1,
            upper_x: 3,
            upper_y: 9
        }),
        bb
    );
    assert!(bb.unwrap().contains(&Point2Di64 { x: 3, y: 9 }));
    assert!(!bb.unwrap().contains(&Point2Di64 { x: 4, y: 9 }));
    assert!(!bb.unwrap().contains(&Point2Di64 { x: 0, y: -2 }));
    assert_eq!(None, bounding_box(&Pattern::new(&Vec::new())));
}
