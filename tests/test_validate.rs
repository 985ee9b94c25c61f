use pack3d::entities::{default_orients, Box, BoxType, ContainerType, Input, Orient, Ratio};
use pack3d::validate::{find_box_type, link_box_types, validate_logic, InputError};

fn bt(id: &str, lx: u32, ly: u32, lz: u32) -> BoxType {
    BoxType { id: id.to_string(), lx, ly, lz, orients: default_orients() }
}

fn raw_box(id: &str, type_id: &str, weight: Option<u64>) -> Box {
    Box {
        id: id.to_string(),
        type_id: type_id.to_string(),
        weight,
        x: None,
        y: None,
        z: None,
        orient: Orient::XYZ,
        lx: 0,
        ly: 0,
        lz: 0,
        box_type: bt("", 0, 0, 0),
    }
}

fn ct(id: &str, payload: Option<u64>) -> ContainerType {
    ContainerType { id: id.to_string(), lx: 10, ly: 10, lz: 10, payload, quantity: None }
}

fn input() -> Input {
    Input {
        box_types: vec![bt("t1", 1, 2, 3), bt("t2", 4, 5, 6)],
        container_types: vec![ct("c1", None), ct("c2", None)],
        boxes: vec![raw_box("b1", "t1", None), raw_box("b2", "t2", None)],
        support_rate: Ratio { num: 7, den: 10 },
    }
}

#[test]
fn valid_input_passes() {
    assert_eq!(validate_logic(&input()), Ok(()));
}

#[test]
fn duplicate_container_type_is_reported() {
    let mut i = input();
    i.container_types.push(ct("c1", None));
    i.boxes.push(raw_box("b1", "t1", None));
    assert_eq!(validate_logic(&i), Err(InputError::DuplicateContainerType("c1".to_string())));
}

#[test]
fn duplicate_box_is_reported() {
    let mut i = input();
    i.boxes.push(raw_box("b2", "t1", None));
    i.box_types.push(bt("t1", 1, 1, 1));
    assert_eq!(validate_logic(&i), Err(InputError::DuplicateBox("b2".to_string())));
}

#[test]
fn duplicate_box_type_is_reported() {
    let mut i = input();
    i.box_types.push(bt("t2", 1, 1, 1));
    assert_eq!(validate_logic(&i), Err(InputError::DuplicateBoxType("t2".to_string())));
}

#[test]
fn unknown_box_type_is_reported() {
    let mut i = input();
    i.boxes.push(raw_box("b3", "nope", None));
    assert_eq!(
        validate_logic(&i),
        Err(InputError::UnknownBoxType { box_id: "b3".to_string(), type_id: "nope".to_string() })
    );
}

#[test]
fn missing_weight_is_reported_only_with_a_payload() {
    let mut i = input();
    i.boxes[0].weight = Some(5);
    assert_eq!(validate_logic(&i), Ok(()));
    i.container_types[1].payload = Some(100);
    assert_eq!(validate_logic(&i), Err(InputError::MissingWeight("b2".to_string())));
}

#[test]
fn empty_catalogs_are_reported() {
    let mut i = input();
    i.container_types.clear();
    assert_eq!(validate_logic(&i), Err(InputError::NoContainerTypes));
    let mut i = input();
    i.boxes.clear();
    assert_eq!(validate_logic(&i), Err(InputError::NoBoxes));
}

#[test]
fn boxes_take_their_type() {
    let i = input();
    let mut boxes = i.boxes.clone();
    link_box_types(&i.box_types, &mut boxes);
    assert_eq!(boxes[1].box_type.id, "t2");
    assert_eq!((boxes[1].lx, boxes[1].ly, boxes[1].lz), (4, 5, 6));
    assert_eq!(boxes[0].box_type.orients, vec![Orient::XYZ, Orient::YXZ]);
    assert_eq!(boxes[0].volume(), 6);
    assert_eq!(find_box_type(&i.box_types, &"t2".to_string()), Some(1));
    assert_eq!(find_box_type(&i.box_types, &"t3".to_string()), None);
}

#[test]
fn equality_goes_by_identity() {
    let a = raw_box("same", "t1", Some(1));
    let mut b = raw_box("same", "t2", Some(2));
    b.x = Some(3);
    assert!(a == b);
    assert!(a != raw_box("other", "t1", Some(1)));
    assert!(bt("t", 1, 1, 1) == bt("t", 2, 2, 2));
    assert!(bt("t", 1, 1, 1) != bt("u", 1, 1, 1));
}
