use posemir::point_set::pattern::Pattern;
use posemir::point_set::point::Point2Di64;
use posemir::point_set::tec::Tec;

#[test]
fn test_covered_set() {
    let pattern = Pattern::new(&vec![&Point2Di64 { x: 1, y: 0 }, &Point2Di64 { x: 2, y: 0 }]);
    let translators = vec![Point2Di64 { x: 1, y: 0 }, Point2Di64 { x: 1, y: 1 }];
    let tec = Tec {
        pattern,
        translators,
    };

    let cov = tec.covered_set();

    assert_eq!(5, cov.len());
    assert_eq!(Point2Di64 { x: 1, y: 0 }, cov[0]);
    assert_eq!(Point2Di64 { x: 2, y: 0 }, cov[1]);
    assert_eq!(Point2Di64 { x: 2, y: 1 }, cov[2]);
    assert_eq!(Point2Di64 { x: 3, y: 0 }, cov[3]);
    assert_eq!(Point2Di64 { x: 3, y: 1 }, cov[4]);
}

#[test]
fn test_conjugate() {
    let a = Point2Di64 { x: 1, y: 1 };
    let b = Point2Di64 { x: 2, y: 1 };
    let c = Point2Di64 { x: 3, y: 1 };

    let pattern = Pattern::new(&vec![&a, &b, &c]);
    let t_a = Point2Di64 { x: 1, y: 0 };
    let t_b = Point2Di64 { x: 1, y: 1 };
    let translators = vec![t_a, t_b];
    let tec = Tec {
        pattern,
        translators,
    };

    let conj = tec.conjugate();
    assert_eq!(
        Pattern::new(&vec![&a, &b, &Point2Di64 { x: 2, y: 2 }]),
        conj.pattern
    );

    assert_eq!(
        vec![Point2Di64 { x: 1, y: 0 }, Point2Di64 { x: 2, y: 0 }],
        conj.translators
    );
}

#[test]
fn test_remove_redundant_translators() {
    let a = Point2Di64 { x: 1, y: 1 };
    let b = Point2Di64 { x: 2, y: 1 };
    let c = Point2Di64 { x: 3, y: 1 };

    let pattern = Pattern::new(&vec![&a, &b, &c]);
    let t_a = Point2Di64 { x: 0, y: 0 };
    let t_b = Point2Di64 { x: 1, y: 1 };
    let t_c = Point2Di64 { x: 1, y: 1 };

    let translators = vec![t_a, t_b, t_c];
    let tec = Tec {
        pattern,
        translators,
    };

    let without_redundant_transl = tec.remove_redundant_translators();
    assert_eq!(
        Pattern::new(&vec![&a, &b, &c]),
        without_redundant_transl.pattern
    );
    assert_eq!(vec![t_b], without_redundant_transl.translators);
}

#[test]
fn tec_expansion_begins_with_the_pattern() {
    let a = Point2Di64 { x: 1, y: 1 };
    let b = Point2Di64 { x: 2, y: 1 };
    let tec = Tec {
        pattern: Pattern::new(&vec![&b, &a]),
        translators: vec![Point2Di64 { x: 4, y: 0 }, Point2Di64 { x: -1, y: 3 }],
    };
    let expanded = tec.expand();
    assert_eq!(3, expanded.len());
    assert_eq!(tec.pattern, expanded[0]);
    assert_eq!(
        Pattern::new(&vec![&Point2Di64 { x: 6, y: 1 }, &Point2Di64 { x: 5, y: 1 }]),
        expanded[1]
    );
    assert_eq!(
        Pattern::new(&vec![&Point2Di64 { x: 1, y: 4 }, &Point2Di64 { x: 0, y: 4 }]),
        expanded[2]
    );
}

#[test]
fn tec_without_translators_expands_to_its_pattern() {
    let a = Point2Di64 { x: 1, y: 1 };
    let tec = Tec {
        pattern: Pattern::new(&vec![&a]),
        translators: Vec::new(),
    };
    let expanded = tec.expand();
    assert_eq!(1, expanded.len());
    assert_eq!(tec.pattern, expanded[0]);
    assert_eq!(1, tec.covered_set().len());
}

#[test]
fn tec_translator_implied_by_others_is_redundant() {
    // The pattern and its copy under (2,0) cover the four points, so the
    // copy under (1,0) adds nothing.
    let a = Point2Di64 { x: 0, y: 0 };
    let b = Point2Di64 { x: 1, y: 0 };
    let tec = Tec {
        pattern: Pattern::new(&vec![&a, &b]),
        translators: vec![Point2Di64 { x: 2, y: 0 }, Point2Di64 { x: 1, y: 0 }],
    };
    let reduced = tec.remove_redundant_translators();
    assert_eq!(vec![Point2Di64 { x: 2, y: 0 }], reduced.translators);
    assert!(reduced.covered_set().equals(&tec.covered_set()));
}
