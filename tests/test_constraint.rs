use pack3d::constraint::Constraint;
use pack3d::entities::{Box, BoxType, Container, ContainerType, Orient, Ratio};

fn make_box(id: &str, box_type: &BoxType, weight: u64, x: u32, y: u32, z: u32) -> Box {
    Box {
        id: id.to_string(),
        box_type: box_type.clone(),
        type_id: box_type.id.clone(),
        weight: Some(weight),
        x: Some(x),
        y: Some(y),
        z: Some(z),
        orient: Orient::XYZ,
        lx: box_type.lx,
        ly: box_type.ly,
        lz: box_type.lz,
    }
}

fn fixtures() -> (Container, BoxType, Vec<Box>, Box, Box, Box) {
    let container = Container {
        container_type: ContainerType {
            id: "ct1".to_string(),
            lx: 10,
            ly: 10,
            lz: 10,
            payload: Some(100),
            quantity: Some(1),
        },
        boxes: Vec::new(),
        volume_rate: Ratio { num: 0, den: 1 },
        weight_rate: None,
    };

    let box_type = BoxType {
        id: "t1".to_string(),
        lx: 5,
        ly: 5,
        lz: 5,
        orients: vec![Orient::XYZ, Orient::YXZ],
    };

    let boxes = vec![make_box("origin", &box_type, 10, 0, 0, 0)];

    let box_x = make_box("bx", &box_type, 10, 5, 0, 0);
    let box_y = make_box("by", &box_type, 10, 0, 5, 0);
    let box_z = make_box("bz", &box_type, 10, 0, 0, 5);

    (container, box_type, boxes, box_x, box_y, box_z)
}

const FULL: Ratio = Ratio { num: 1, den: 1 };

#[test]
fn test_check_bound() {
    let (container, box_type, boxes, box_x, box_y, box_z) = fixtures();
    let constraint = Constraint::new(&container, &boxes, FULL);

    let box_bad = make_box("bad", &box_type, 10, 0, 0, 6);
    assert!(constraint.check_bound(&box_x));
    assert!(constraint.check_bound(&box_y));
    assert!(constraint.check_bound(&box_z));
    assert!(!constraint.check_bound(&box_bad));
}

#[test]
fn test_check_overlap() {
    let (container, box_type, boxes, box_x, box_y, box_z) = fixtures();
    let constraint = Constraint::new(&container, &boxes, FULL);

    let box_bad = make_box("bad", &box_type, 10, 0, 0, 4);
    assert!(constraint.check_overlap(&box_x));
    assert!(constraint.check_overlap(&box_y));
    assert!(constraint.check_overlap(&box_z));
    assert!(!constraint.check_overlap(&box_bad));
}

#[test]
fn test_check_support() {
    let (container, box_type, boxes, box_x, box_y, box_z) = fixtures();
    let constraint = Constraint::new(&container, &boxes, FULL);

    let box_bad = make_box("bad", &box_type, 10, 5, 0, 1);
    assert!(constraint.check_support(&box_x));
    assert!(constraint.check_support(&box_y));
    assert!(constraint.check_support(&box_z));
    assert!(!constraint.check_support(&box_bad));
}

#[test]
fn test_check_weight() {
    let (container, box_type, boxes, box_x, box_y, box_z) = fixtures();
    let constraint = Constraint::new(&container, &boxes, FULL);

    let box_bad = make_box("bad", &box_type, 100, 5, 0, 0);
    assert!(constraint.check_weight(&box_x));
    assert!(constraint.check_weight(&box_y));
    assert!(constraint.check_weight(&box_z));
    assert!(!constraint.check_weight(&box_bad));
}

#[test]
fn weight_limit_is_inclusive() {
    let (container, box_type, boxes, _, _, _) = fixtures();
    let constraint = Constraint::new(&container, &boxes, FULL);
    let box_exact = make_box("exact", &box_type, 90, 5, 0, 0);
    assert!(constraint.check_weight(&box_exact));
}

#[test]
fn no_payload_means_any_weight() {
    let (mut container, box_type, boxes, _, _, _) = fixtures();
    container.container_type.payload = None;
    let constraint = Constraint::new(&container, &boxes, FULL);
    let heavy = make_box("heavy", &box_type, u64::MAX, 5, 0, 0);
    assert!(constraint.check_weight(&heavy));
}

#[test]
fn support_follows_the_configured_ratio() {
    let (container, box_type, boxes, _, _, _) = fixtures();
    // Resting on 3 of 5 columns: 15 of 25 units of base area.
    let shifted = make_box("shifted", &box_type, 10, 2, 0, 5);
    let seven_tenths = Ratio { num: 7, den: 10 };
    let half = Ratio { num: 1, den: 2 };
    let strict = Constraint::new(&container, &boxes, seven_tenths);
    let loose = Constraint::new(&container, &boxes, half);
    assert!(!strict.check_support(&shifted));
    assert!(loose.check_support(&shifted));
    assert!(!Constraint::new(&container, &boxes, FULL).check_support(&shifted));
}

#[test]
fn support_scenario_partial_overlap_fails() {
    let (container, box_type, boxes, _, _, _) = fixtures();
    let seven_tenths = Ratio { num: 7, den: 10 };
    let constraint = Constraint::new(&container, &boxes, seven_tenths);
    // Overlap with the box below is 2 x 5 = 10 < 0.7 x 25.
    let raised = make_box("raised", &box_type, 10, 3, 0, 5);
    assert!(!constraint.check_support(&raised));
    assert!(!constraint.check_constraints(&raised));
    let on_top = make_box("on_top", &box_type, 10, 0, 0, 5);
    assert!(constraint.check_support(&on_top));
    assert!(constraint.check_constraints(&on_top));
}

#[test]
fn support_needs_a_box_at_the_exact_height() {
    let (container, box_type, boxes, _, _, _) = fixtures();
    let constraint = Constraint::new(&container, &boxes, Ratio { num: 1, den: 10 });
    let floating = make_box("floating", &box_type, 10, 0, 0, 6);
    assert!(!constraint.check_support(&floating));
}

#[test]
fn touching_faces_do_not_overlap() {
    let (container, box_type, boxes, _, _, _) = fixtures();
    let constraint = Constraint::new(&container, &boxes, FULL);
    let next = make_box("next", &box_type, 10, 4, 0, 0);
    assert!(!constraint.check_overlap(&next));
    let beside = make_box("beside", &box_type, 10, 5, 4, 0);
    assert!(constraint.check_overlap(&beside));
}

#[test]
fn constraints_fail_on_each_rule() {
    let (container, box_type, boxes, box_x, _, _) = fixtures();
    let constraint = Constraint::new(&container, &boxes, FULL);
    assert!(constraint.check_constraints(&box_x));
    assert!(!constraint.check_constraints(&make_box("out", &box_type, 10, 6, 0, 0)));
    assert!(!constraint.check_constraints(&make_box("in", &box_type, 10, 1, 1, 0)));
    assert!(!constraint.check_constraints(&make_box("air", &box_type, 10, 5, 5, 5)));
    assert!(!constraint.check_constraints(&make_box("heavy", &box_type, 91, 5, 0, 0)));
}
