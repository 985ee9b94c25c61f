use pack3d::algorithm::Algorithm;
use pack3d::placement::{candidate_points, try_pack};
use pack3d::constraint::{weight_of_boxes, Constraint};
use pack3d::entities::{
    default_orients, default_support_rate, Box, BoxType, Container, ContainerType, Input, Orient,
    Output, Ratio,
};
use std::collections::HashSet;

fn box_type(id: &str, lx: u32, ly: u32, lz: u32) -> BoxType {
    BoxType { id: id.to_string(), lx, ly, lz, orients: default_orients() }
}

fn unplaced(id: &str, bt: &BoxType, weight: Option<u64>) -> Box {
    Box {
        id: id.to_string(),
        type_id: bt.id.clone(),
        weight,
        x: None,
        y: None,
        z: None,
        orient: Orient::XYZ,
        lx: bt.lx,
        ly: bt.ly,
        lz: bt.lz,
        box_type: bt.clone(),
    }
}

fn container_type(id: &str, l: u32, payload: Option<u64>, quantity: Option<u32>) -> ContainerType {
    ContainerType { id: id.to_string(), lx: l, ly: l, lz: l, payload, quantity }
}

fn pack(box_types: Vec<BoxType>, container_types: Vec<ContainerType>, boxes: Vec<Box>) -> Output {
    let input = Input { box_types, container_types, boxes, support_rate: default_support_rate() };
    Algorithm::new(input).run()
}

fn pos(b: &Box) -> (u32, u32, u32) {
    (b.x.unwrap(), b.y.unwrap(), b.z.unwrap())
}

fn check_output(input_boxes: &[Box], out: &Output, ratio: Ratio) {
    let packed: usize = out.containers.iter().map(|c| c.boxes.len()).sum();
    assert_eq!(packed + out.unpacked_boxes.len(), input_boxes.len());
    let input_ids: HashSet<String> = input_boxes.iter().map(|b| b.id.clone()).collect();
    let mut output_ids: HashSet<String> = out.unpacked_boxes.iter().map(|b| b.id.clone()).collect();
    for c in &out.containers {
        output_ids.extend(c.boxes.iter().map(|b| b.id.clone()));
    }
    assert_eq!(input_ids, output_ids);
    for c in &out.containers {
        for (i, item) in c.boxes.iter().enumerate() {
            let mut others = c.boxes.clone();
            others.remove(i);
            let constraint = Constraint::new(c, &others, ratio);
            assert!(constraint.check_constraints(item));
        }
        assert!(c.volume_rate.num > 0 && c.volume_rate.num <= c.volume_rate.den);
        if let Some(w) = c.weight_rate {
            assert!(w.num > 0 && w.num <= w.den);
        }
    }
}

#[test]
fn scenario_single_box() {
    let bt = box_type("t", 5, 5, 5);
    let out = pack(
        vec![bt.clone()],
        vec![container_type("c", 10, None, None)],
        vec![unplaced("b", &bt, None)],
    );
    assert_eq!(out.containers.len(), 1);
    assert_eq!(out.containers[0].boxes.len(), 1);
    assert_eq!(pos(&out.containers[0].boxes[0]), (0, 0, 0));
    assert_eq!(out.containers[0].volume_rate, Ratio { num: 125, den: 1000 });
    assert_eq!(out.containers[0].weight_rate, None);
    assert!(out.unpacked_boxes.is_empty());
    assert_eq!(out.box_types.len(), 1);
}

#[test]
fn scenario_weight_moves_heavy_box_on() {
    let bt = box_type("t", 5, 5, 5);
    let boxes = vec![
        unplaced("light1", &bt, Some(10)),
        unplaced("light2", &bt, Some(10)),
        unplaced("heavy", &bt, Some(90)),
    ];
    let out = pack(vec![bt.clone()], vec![container_type("c", 10, Some(100), None)], boxes.clone());
    assert_eq!(out.containers.len(), 2);
    let first: Vec<&str> = out.containers[0].boxes.iter().map(|b| b.id.as_str()).collect();
    assert_eq!(first, vec!["light1", "light2"]);
    assert_eq!(out.containers[1].boxes[0].id, "heavy");
    assert_eq!(out.containers[0].weight_rate, Some(Ratio { num: 20, den: 100 }));
    assert_eq!(out.containers[1].weight_rate, Some(Ratio { num: 90, den: 100 }));
    assert!(out.unpacked_boxes.is_empty());
    check_output(&boxes, &out, default_support_rate());
}

#[test]
fn scenario_weight_leaves_heavy_box_unpacked() {
    let bt = box_type("t", 5, 5, 5);
    let boxes = vec![
        unplaced("light1", &bt, Some(10)),
        unplaced("light2", &bt, Some(10)),
        unplaced("heavy", &bt, Some(90)),
    ];
    let out = pack(vec![bt.clone()], vec![container_type("c", 10, Some(100), Some(1))], boxes);
    assert_eq!(out.containers.len(), 1);
    assert_eq!(out.unpacked_boxes.len(), 1);
    assert_eq!(out.unpacked_boxes[0].id, "heavy");
    assert_eq!(out.unpacked_boxes[0].x, None);
}

#[test]
fn scenario_fallback_to_small_container() {
    let bt = box_type("t", 5, 5, 5);
    let boxes = vec![
        unplaced("a", &bt, None),
        unplaced("b", &bt, None),
        unplaced("c", &bt, None),
    ];
    let out = pack(
        vec![bt.clone()],
        vec![container_type("big", 20, None, Some(0)), container_type("small", 5, None, Some(1))],
        boxes.clone(),
    );
    assert_eq!(out.containers.len(), 1);
    assert_eq!(out.containers[0].container_type.id, "small");
    assert_eq!(out.containers[0].boxes.len(), 1);
    assert_eq!(out.containers[0].volume_rate, Ratio { num: 125, den: 125 });
    assert_eq!(out.unpacked_boxes.len(), 2);
    check_output(&boxes, &out, default_support_rate());
}

#[test]
fn smallest_sufficient_container_is_chosen() {
    let bt = box_type("t", 5, 5, 5);
    let out = pack(
        vec![bt.clone()],
        vec![
            container_type("huge", 30, None, None),
            container_type("tiny", 4, None, None),
            container_type("fit", 10, None, None),
        ],
        vec![unplaced("a", &bt, None), unplaced("b", &bt, None)],
    );
    assert_eq!(out.containers.len(), 1);
    assert_eq!(out.containers[0].container_type.id, "fit");
}

#[test]
fn nothing_fits_leaves_all_unpacked() {
    let bt = box_type("t", 5, 5, 5);
    let out = pack(
        vec![bt.clone()],
        vec![container_type("tiny", 4, None, None)],
        vec![unplaced("a", &bt, None)],
    );
    assert!(out.containers.is_empty());
    assert_eq!(out.unpacked_boxes.len(), 1);
}

#[test]
fn boxes_fill_corner_points_in_order() {
    let bt = box_type("t", 5, 5, 5);
    let boxes: Vec<Box> = (0..8).map(|i| unplaced(&format!("b{}", i), &bt, None)).collect();
    let out = pack(vec![bt.clone()], vec![container_type("c", 10, None, None)], boxes.clone());
    assert_eq!(out.containers.len(), 1);
    let placed: Vec<(u32, u32, u32)> = out.containers[0].boxes.iter().map(pos).collect();
    assert_eq!(
        placed,
        vec![
            (0, 0, 0),
            (5, 0, 0),
            (0, 5, 0),
            (5, 5, 0),
            (0, 0, 5),
            (5, 0, 5),
            (0, 5, 5),
            (5, 5, 5),
        ]
    );
    assert_eq!(out.containers[0].volume_rate, Ratio { num: 1000, den: 1000 });
    check_output(&boxes, &out, default_support_rate());
}

#[test]
fn larger_boxes_go_first_and_may_turn() {
    let long = BoxType {
        id: "long".to_string(),
        lx: 4,
        ly: 10,
        lz: 2,
        orients: vec![Orient::XYZ, Orient::YXZ],
    };
    let small = box_type("small", 2, 2, 2);
    let boxes = vec![unplaced("s", &small, None), unplaced("l", &long, None)];
    let out = pack(
        vec![long.clone(), small.clone()],
        vec![ContainerType { id: "c".to_string(), lx: 10, ly: 4, lz: 4, payload: None, quantity: None }],
        boxes.clone(),
    );
    assert_eq!(out.containers.len(), 1);
    let c = &out.containers[0];
    assert_eq!(c.boxes[0].id, "l");
    assert_eq!(c.boxes[0].orient, Orient::YXZ);
    assert_eq!((c.boxes[0].lx, c.boxes[0].ly, c.boxes[0].lz), (10, 4, 2));
    assert_eq!(c.boxes[1].id, "s");
    assert_eq!(pos(&c.boxes[1]), (0, 0, 2));
    check_output(&boxes, &out, default_support_rate());
}

fn mixed_input() -> (Vec<BoxType>, Vec<ContainerType>, Vec<Box>) {
    let types = vec![box_type("a", 3, 4, 2), box_type("b", 5, 5, 5), box_type("c", 2, 2, 6)];
    let mut boxes = Vec::new();
    for i in 0..25 {
        let t = &types[i % 3];
        boxes.push(unplaced(&format!("x{}", i), t, Some(3 + (i as u64 % 7))));
    }
    let cts = vec![
        container_type("s", 8, Some(60), Some(2)),
        container_type("m", 12, Some(200), None),
    ];
    (types, cts, boxes)
}

#[test]
fn mixed_instance_keeps_every_box_once_and_feasible() {
    let (types, cts, boxes) = mixed_input();
    let out = pack(types, cts, boxes.clone());
    assert!(!out.containers.is_empty());
    check_output(&boxes, &out, default_support_rate());
}

#[test]
fn running_twice_gives_the_same_packing() {
    let (types, cts, boxes) = mixed_input();
    let a = pack(types.clone(), cts.clone(), boxes.clone());
    let b = pack(types, cts, boxes);
    assert_eq!(a.containers.len(), b.containers.len());
    for (ca, cb) in a.containers.iter().zip(b.containers.iter()) {
        assert_eq!(ca.container_type.id, cb.container_type.id);
        assert_eq!(ca.boxes.len(), cb.boxes.len());
        for (x, y) in ca.boxes.iter().zip(cb.boxes.iter()) {
            assert_eq!(x.id, y.id);
            assert_eq!(pos(x), pos(y));
            assert_eq!(x.orient, y.orient);
        }
    }
    let ua: Vec<&String> = a.unpacked_boxes.iter().map(|b| &b.id).collect();
    let ub: Vec<&String> = b.unpacked_boxes.iter().map(|b| &b.id).collect();
    assert_eq!(ua, ub);
}

#[test]
fn candidates_are_sorted_by_height_then_depth_then_length() {
    let bt = box_type("t", 5, 3, 2);
    let mut b = unplaced("p", &bt, None);
    b.x = Some(0);
    b.y = Some(0);
    b.z = Some(0);
    let cands = candidate_points(&[b]);
    assert_eq!(cands, vec![(0, 0, 0), (5, 0, 0), (0, 3, 0), (0, 0, 2)]);
    assert_eq!(candidate_points(&[]), vec![(0, 0, 0)]);
}

#[test]
fn candidates_are_deduplicated() {
    let bt = box_type("t", 5, 5, 5);
    let mut a = unplaced("a", &bt, None);
    a.x = Some(0);
    a.y = Some(0);
    a.z = Some(0);
    let mut b = unplaced("b", &bt, None);
    b.x = Some(0);
    b.y = Some(5);
    b.z = Some(0);
    let mut c = unplaced("c", &bt, None);
    c.x = Some(5);
    c.y = Some(0);
    c.z = Some(0);
    let cands = candidate_points(&[a, b, c]);
    assert_eq!(
        cands,
        vec![(0, 0, 0), (5, 0, 0), (10, 0, 0), (0, 5, 0), (5, 5, 0), (0, 10, 0), (0, 0, 5), (5, 0, 5), (0, 5, 5)]
    );
}

#[test]
fn try_pack_restores_a_box_that_fits_nowhere() {
    let container = Container {
        container_type: container_type("c", 4, None, None),
        boxes: Vec::new(),
        volume_rate: Ratio { num: 0, den: 1 },
        weight_rate: None,
    };
    let bt = box_type("t", 5, 5, 5);
    let mut item = unplaced("b", &bt, None);
    item.orient = Orient::ZYX;
    assert!(!try_pack(&container, &Vec::new(), default_support_rate(), &mut item));
    assert_eq!(item.x, None);
    assert_eq!(item.orient, Orient::ZYX);
}

#[test]
fn try_pack_places_next_to_a_packed_box() {
    let container = Container {
        container_type: container_type("c", 10, None, None),
        boxes: Vec::new(),
        volume_rate: Ratio { num: 0, den: 1 },
        weight_rate: None,
    };
    let bt = box_type("t", 5, 5, 5);
    let mut first = unplaced("a", &bt, None);
    assert!(try_pack(&container, &Vec::new(), default_support_rate(), &mut first));
    assert_eq!(pos(&first), (0, 0, 0));
    let packed = vec![first];
    let mut second = unplaced("b", &bt, None);
    assert!(try_pack(&container, &packed, default_support_rate(), &mut second));
    assert_eq!(pos(&second), (5, 0, 0));
}

#[test]
fn set_orient_permutes_extents() {
    let bt = BoxType { id: "t".to_string(), lx: 1, ly: 2, lz: 3, orients: default_orients() };
    let mut b = unplaced("b", &bt, None);
    let cases = [
        (Orient::XYZ, (1, 2, 3)),
        (Orient::YXZ, (2, 1, 3)),
        (Orient::XZY, (1, 3, 2)),
        (Orient::ZXY, (3, 1, 2)),
        (Orient::YZX, (2, 3, 1)),
        (Orient::ZYX, (3, 2, 1)),
    ];
    for (o, dims) in cases {
        b.set_orient(o);
        assert_eq!(b.orient, o);
        assert_eq!((b.lx, b.ly, b.lz), dims);
    }
}

#[test]
fn volumes_and_defaults() {
    let bt = BoxType { id: "t".to_string(), lx: 2, ly: 3, lz: 4, orients: default_orients() };
    assert_eq!(bt.volume(), 24);
    assert_eq!(unplaced("b", &bt, None).volume(), 24);
    let big = BoxType { id: "g".to_string(), lx: u32::MAX, ly: u32::MAX, lz: u32::MAX, orients: vec![] };
    assert_eq!(big.volume(), (u32::MAX as u128).pow(3));
    assert_eq!(container_type("c", 10, None, None).volume(), 1000);
    assert_eq!(default_orients(), vec![Orient::XYZ, Orient::YXZ]);
    assert_eq!(default_support_rate(), Ratio { num: 7, den: 10 });
}

#[test]
fn weights_sum_missing_as_zero() {
    let bt = box_type("t", 1, 1, 1);
    let boxes = vec![unplaced("a", &bt, Some(5)), unplaced("b", &bt, None), unplaced("c", &bt, Some(u64::MAX))];
    assert_eq!(weight_of_boxes(&boxes), 5 + u64::MAX as u128);
}

#[test]
fn equal_volumes_keep_their_input_order() {
    let flat = BoxType { id: "flat".to_string(), lx: 4, ly: 2, lz: 1, orients: default_orients() };
    let bar = BoxType { id: "bar".to_string(), lx: 8, ly: 1, lz: 1, orients: default_orients() };
    let big = box_type("big", 3, 3, 3);
    let boxes = vec![
        unplaced("first", &flat, None),
        unplaced("second", &bar, None),
        unplaced("large", &big, None),
        unplaced("third", &flat, None),
    ];
    let out = pack(
        vec![flat.clone(), bar.clone(), big.clone()],
        vec![container_type("c", 10, None, None)],
        boxes.clone(),
    );
    assert_eq!(out.containers.len(), 1);
    let order: Vec<&str> = out.containers[0].boxes.iter().map(|b| b.id.as_str()).collect();
    assert_eq!(order, vec!["large", "first", "second", "third"]);
    check_output(&boxes, &out, default_support_rate());
}
