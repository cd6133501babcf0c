use posemir::discovery::algorithm::TecAlgorithm;
use posemir::discovery::siatec_c::SiatecC;
use posemir::discovery::siatec_ch::SiatecCH;
use posemir::point_set::pattern::Pattern;
use posemir::point_set::point::Point2Di64;
use posemir::point_set::set::PointSet;
use posemir::point_set::tec::Tec;

#[test]
fn siatec_ch_test_with_minimal_number_of_mtps() {
    // Create a point set where the number of MTPs is minimal.
    let mut points = Vec::new();
    let a = Point2Di64 { x: 1, y: 1 };
    points.push(a);
    let b = Point2Di64 { x: 2, y: 1 };
    points.push(b);
    let c = Point2Di64 { x: 3, y: 1 };
    points.push(c);
    let d = Point2Di64 { x: 4, y: 1 };
    points.push(d);

    let point_set = PointSet::new(points);
    let siatec_ch = SiatecCH { max_ioi: 2 };
    let mut tecs = siatec_ch.compute_tecs(&point_set);
    tecs.sort_by(|a, b| a.pattern.len().cmp(&b.pattern.len()));

    assert_eq!(2, tecs.len());
    assert_eq!(
        Tec {
            pattern: Pattern::new(&vec![&a, &b]),
            translators: vec![Point2Di64 { x: 1, y: 0 }, Point2Di64 { x: 2, y: 0 }],
        },
        tecs[0]
    );
    assert_eq!(
        Tec {
            pattern: Pattern::new(&vec![&a, &b, &c]),
            translators: vec![Point2Di64 { x: 1, y: 0 }],
        },
        tecs[1]
    );
}

#[test]
fn siatec_ch_test_with_gap_and_minimal_number_of_mtps() {
    // Create a point set where the number of MTPs is minimal.
    let mut points = Vec::new();
    let a = Point2Di64 { x: 1, y: 1 };
    points.push(a);
    let b = Point2Di64 { x: 2, y: 1 };
    points.push(b);
    let c = Point2Di64 { x: 5, y: 1 };
    points.push(c);
    let d = Point2Di64 { x: 6, y: 1 };
    points.push(d);

    let point_set = PointSet::new(points);
    let siatec_ch = SiatecCH { max_ioi: 2 };
    let mut tecs = siatec_ch.compute_tecs(&point_set);

    SiatecC::remove_translational_duplicates(&mut tecs);

    assert_eq!(1, tecs.len());
    assert_eq!(
        Tec {
            pattern: Pattern::new(&vec![&a, &b]),
            translators: vec![Point2Di64 { x: 4, y: 0 }],
        },
        tecs[0]
    );
}

#[test]
fn siatec_ch_test_with_gaps_and_minimal_number_of_mtps() {
    // Create a point set where the number of MTPs is minimal.
    let mut points = Vec::new();
    let a = Point2Di64 { x: 1, y: 1 };
    points.push(a);
    let b = Point2Di64 { x: 2, y: 1 };
    points.push(b);
    let c = Point2Di64 { x: 4, y: 1 };
    points.push(c);
    let d = Point2Di64 { x: 7, y: 1 };
    points.push(d);
    let e = Point2Di64 { x: 8, y: 1 };
    points.push(e);

    let point_set = PointSet::new(points);
    let siatec_ch = SiatecCH { max_ioi: 2 };
    let mut tecs = siatec_ch.compute_tecs(&point_set);

    SiatecC::remove_translational_duplicates(&mut tecs);

    assert_eq!(1, tecs.len());
    assert_eq!(
        Tec {
            pattern: Pattern::new(&vec![&a, &b]),
            translators: vec![Point2Di64 { x: 6, y: 0 }],
        },
        tecs[0]
    );
}

#[test]
fn siatec_ch_index_holds_the_pairs_of_each_difference() {
    let point_set = PointSet::new(vec![
        Point2Di64 { x: 1, y: 1 },
        Point2Di64 { x: 2, y: 1 },
        Point2Di64 { x: 5, y: 1 },
        Point2Di64 { x: 6, y: 1 },
    ]);
    let index = SiatecCH { max_ioi: 3 }.compute_diff_index(&point_set);
    assert_eq!(2, index.len());
    assert_eq!(
        &vec![(0, 1), (2, 3)],
        SiatecCH::find_indices(&index, &Point2Di64 { x: 1, y: 0 })
    );
    assert_eq!(
        &vec![(1, 2)],
        SiatecCH::find_indices(&index, &Point2Di64 { x: 3, y: 0 })
    );
    assert!(!index.contains_key(&Point2Di64 { x: 4, y: 0 }));
}

#[test]
fn siatec_ch_cover_never_falls() {
    let point_set = PointSet::new(vec![
        Point2Di64 { x: 1, y: 1 },
        Point2Di64 { x: 2, y: 1 },
        Point2Di64 { x: 3, y: 1 },
        Point2Di64 { x: 4, y: 1 },
    ]);
    let siatec_ch = SiatecCH { max_ioi: 2 };
    let index = siatec_ch.compute_diff_index(&point_set);
    let mut cover = vec![0, 5, 1, 0];
    let before = cover.clone();
    let pattern = point_set.get_pattern(&vec![0, 1, 2]);
    let translators =
        siatec_ch.find_translators_update_cover(&pattern, &index, &point_set, &mut cover);
    assert_eq!(vec![Point2Di64 { x: 1, y: 0 }], translators);
    // The chain of the pattern and its copy is walked backward from the
    // points that the last point is moved onto.
    assert_eq!(vec![3, 5, 3, 0], cover);
    for i in 0..cover.len() {
        assert!(cover[i] >= before[i]);
    }
}

#[test]
fn siatec_ch_improves_cover_where_some_point_is_covered_less() {
    let cover = vec![3, 3, 3, 0];
    assert!(SiatecCH::improves_cover(&cover, &vec![0, 1], &vec![2, 3], 2));
    assert!(!SiatecCH::improves_cover(&cover, &vec![0, 1], &vec![1, 2], 2));
    assert!(SiatecCH::improves_cover(&cover, &vec![0, 1], &vec![1, 2], 4));
    assert!(!SiatecCH::improves_cover(&cover, &Vec::new(), &Vec::new(), 4));
}

#[test]
fn siatec_ch_of_small_sets_is_empty() {
    let siatec_ch = SiatecCH { max_ioi: 2 };
    assert_eq!(0, siatec_ch.compute_tecs(&PointSet::new(Vec::new())).len());
    assert_eq!(
        0,
        siatec_ch
            .compute_tecs(&PointSet::new(vec![Point2Di64 { x: 5, y: 7 }]))
            .len()
    );
}

#[test]
fn siatec_ch_update_cover_walks_the_steps_backward() {
    // Two steps of a pattern of three points: from the points at 2 and 3
    // the walk reaches 1 and 2, and from these 0 and 1.
    let first: Vec<(usize, usize)> = vec![(0, 1), (1, 2)];
    let second: Vec<(usize, usize)> = vec![(1, 2), (2, 3)];
    let steps = vec![&first, &second];
    let mut cover = vec![0, 5, 1, 0];
    SiatecCH::update_cover(3, &steps, &mut cover, vec![2, 3]);
    assert_eq!(vec![3, 5, 3, 0], cover);
}

#[test]
fn siatec_ch_update_cover_never_lowers_an_entry() {
    // The indices are not in ascending order: whatever is reached, each
    // entry stays as it was or is raised to the size of the pattern.
    let step: Vec<(usize, usize)> = vec![(0, 1), (2, 3)];
    let steps = vec![&step];
    let before = vec![5, 0, 3, 0];
    let mut cover = before.clone();
    SiatecCH::update_cover(4, &steps, &mut cover, vec![3, 1]);
    assert_eq!(before.len(), cover.len());
    for i in 0..cover.len() {
        assert!(cover[i] >= before[i]);
        assert!(cover[i] == before[i] || cover[i] == 4);
    }
    assert_eq!(vec![5, 0, 4, 0], cover);
}
