use vstd::prelude::*;
use crate::algorithm::ids;
use crate::entities::{Box, BoxType, ContainerType, Input, Orient};

verus! {

/// Why an input cannot be packed.
#[derive(Debug, Clone, PartialEq, Eq)]
pub enum InputError {
    DuplicateContainerType(String),
    DuplicateBox(String),
    DuplicateBoxType(String),
    UnknownBoxType { box_id: String, type_id: String },
    MissingWeight(String),
    NoContainerTypes,
    NoBoxes,
}

/// Entry `i` repeats an identity that an earlier entry has.
pub open spec fn repeats_earlier(ids: Seq<Seq<char>>, i: int) -> bool {
    exists|j: int| 0 <= j < i && ids[j] == ids[i]
}

/// `i` is the first entry of `ids` that repeats an earlier one.
pub open spec fn first_repeat(ids: Seq<Seq<char>>, i: int) -> bool {
    &&& 0 <= i < ids.len()
    &&& repeats_earlier(ids, i)
    &&& forall|k: int| 0 <= k < i ==> !repeats_earlier(ids, k)
}

pub open spec fn all_distinct(ids: Seq<Seq<char>>) -> bool {
    forall|k: int| 0 <= k < ids.len() ==> !repeats_earlier(ids, k)
}

pub open spec fn box_type_ids(s: Seq<BoxType>) -> Seq<Seq<char>> {
    s.map_values(|t: BoxType| t.id@)
}

pub open spec fn container_type_ids(s: Seq<ContainerType>) -> Seq<Seq<char>> {
    s.map_values(|t: ContainerType| t.id@)
}

/// Some box type has the identity `id`.
pub open spec fn known_type(types: Seq<BoxType>, id: Seq<char>) -> bool {
    exists|k: int| 0 <= k < types.len() && types[k].id@ == id
}

/// Some container type bounds the payload.
pub open spec fn any_payload(input: Input) -> bool {
    exists|k: int|
        0 <= k < input.container_types@.len() && (#[trigger] input.container_types@[k]).payload is Some
}

/// Box `k` names no known box type.
pub open spec fn unknown_at(input: Input, k: int) -> bool {
    0 <= k < input.boxes@.len() && !known_type(input.box_types@, input.boxes@[k].type_id@)
}

/// Box `k` has no weight though some container type bounds the payload.
pub open spec fn unweighed_at(input: Input, k: int) -> bool {
    0 <= k < input.boxes@.len() && any_payload(input) && input.boxes@[k].weight is None
}

fn container_type_id_list(types: &Vec<ContainerType>) -> (r: Vec<String>)
    ensures
        r@.map_values(|s: String| s@) == container_type_ids(types@),
{
    let mut r: Vec<String> = Vec::new();
    let mut i: usize = 0;
    while i < types.len()
        invariant
            0 <= i <= types@.len(),
            r@.len() == i,
            forall|k: int| 0 <= k < i ==> (#[trigger] r@[k])@ == types@[k].id@,
        decreases types@.len() - i,
    {
        r.push(types[i].id.clone());
        i = i + 1;
    }
    assert(r@.map_values(|s: String| s@) =~= container_type_ids(types@));
    r
}

fn box_id_list(boxes: &Vec<Box>) -> (r: Vec<String>)
    ensures
        r@.map_values(|s: String| s@) == ids(boxes@),
{
    let mut r: Vec<String> = Vec::new();
    let mut i: usize = 0;
    while i < boxes.len()
        invariant
            0 <= i <= boxes@.len(),
            r@.len() == i,
            forall|k: int| 0 <= k < i ==> (#[trigger] r@[k])@ == boxes@[k].id@,
        decreases boxes@.len() - i,
    {
        r.push(boxes[i].id.clone());
        i = i + 1;
    }
    assert(r@.map_values(|s: String| s@) =~= ids(boxes@));
    r
}

fn box_type_id_list(types: &Vec<BoxType>) -> (r: Vec<String>)
    ensures
        r@.map_values(|s: String| s@) == box_type_ids(types@),
{
    let mut r: Vec<String> = Vec::new();
    let mut i: usize = 0;
    while i < types.len()
        invariant
            0 <= i <= types@.len(),
            r@.len() == i,
            forall|k: int| 0 <= k < i ==> (#[trigger] r@[k])@ == types@[k].id@,
        decreases types@.len() - i,
    {
        r.push(types[i].id.clone());
        i = i + 1;
    }
    assert(r@.map_values(|s: String| s@) =~= box_type_ids(types@));
    r
}

/// The first index at which an identity repeats an earlier one.
fn first_repeated(ids: &Vec<String>) -> (r: Option<usize>)
    ensures
        match r {
            Some(i) => first_repeat(ids@.map_values(|s: String| s@), i as int),
            None => all_distinct(ids@.map_values(|s: String| s@)),
        },
{
    let ghost v = ids@.map_values(|s: String| s@);
    let n = ids.len();
    let mut i: usize = 0;
    while i < n
        invariant
            n == ids@.len(),
            v == ids@.map_values(|s: String| s@),
            0 <= i <= n,
            forall|k: int| 0 <= k < i ==> !repeats_earlier(v, k),
        decreases n - i,
    {
        let mut j: usize = 0;
        while j < i
            invariant
                n == ids@.len(),
                v == ids@.map_values(|s: String| s@),
                0 <= j <= i < n,
                forall|k: int| 0 <= k < i ==> !repeats_earlier(v, k),
                forall|k: int| 0 <= k < j ==> v[k] != v[i as int],
            decreases i - j,
        {
            if ids[j] == ids[i] {
                assert(v[j as int] == v[i as int]);
                assert(repeats_earlier(v, i as int));
                return Some(i);
            }
            j = j + 1;
        }
        i = i + 1;
    }
    None
}

/// Checks what the packing takes for granted of an input, in this order:
/// container type identities are distinct, box identities are distinct,
/// box type identities are distinct, every box names a known box type,
/// every box has a weight where some container type bounds the payload,
/// and there is at least one container type and one box. The first rule
/// broken gives the error, naming the first entry that breaks it.
pub fn validate_logic(input: &Input) -> (r: Result<(), InputError>)
    ensures
        ({
            let cts = container_type_ids(input.container_types@);
            let bs = ids(input.boxes@);
            let bts = box_type_ids(input.box_types@);
            match r {
                Ok(()) => {
                    &&& all_distinct(cts)
                    &&& all_distinct(bs)
                    &&& all_distinct(bts)
                    &&& forall|k: int| 0 <= k < input.boxes@.len() ==> !unknown_at(*input, k)
                    &&& forall|k: int| 0 <= k < input.boxes@.len() ==> !unweighed_at(*input, k)
                    &&& input.container_types@.len() > 0
                    &&& input.boxes@.len() > 0
                },
                Err(InputError::DuplicateContainerType(id)) => exists|i: int|
                    first_repeat(cts, i) && id@ == cts[i],
                Err(InputError::DuplicateBox(id)) => all_distinct(cts) && exists|i: int|
                    first_repeat(bs, i) && id@ == bs[i],
                Err(InputError::DuplicateBoxType(id)) => all_distinct(cts) && all_distinct(bs)
                    && exists|i: int| first_repeat(bts, i) && id@ == bts[i],
                Err(InputError::UnknownBoxType { box_id, type_id }) => {
                    &&& all_distinct(cts) && all_distinct(bs) && all_distinct(bts)
                    &&& exists|i: int|
                        unknown_at(*input, i) && (forall|k: int| 0 <= k < i ==> !unknown_at(*input, k))
                            && box_id@ == input.boxes@[i].id@ && type_id@
                            == input.boxes@[i].type_id@
                },
                Err(InputError::MissingWeight(id)) => {
                    &&& all_distinct(cts) && all_distinct(bs) && all_distinct(bts)
                    &&& forall|k: int| 0 <= k < input.boxes@.len() ==> !unknown_at(*input, k)
                    &&& exists|i: int|
                        unweighed_at(*input, i) && (forall|k: int| 0 <= k < i ==> !unweighed_at(*input, k)) && id@
                            == input.boxes@[i].id@
                },
                Err(InputError::NoContainerTypes) => {
                    &&& all_distinct(cts) && all_distinct(bs) && all_distinct(bts)
                    &&& forall|k: int| 0 <= k < input.boxes@.len() ==> !unknown_at(*input, k)
                    &&& forall|k: int| 0 <= k < input.boxes@.len() ==> !unweighed_at(*input, k)
                    &&& input.container_types@.len() == 0
                },
                Err(InputError::NoBoxes) => {
                    &&& all_distinct(cts) && all_distinct(bs) && all_distinct(bts)
                    &&& forall|k: int| 0 <= k < input.boxes@.len() ==> !unknown_at(*input, k)
                    &&& forall|k: int| 0 <= k < input.boxes@.len() ==> !unweighed_at(*input, k)
                    &&& input.container_types@.len() > 0
                    &&& input.boxes@.len() == 0
                },
            }
        }),
{
    // Rule 1: container type identities are distinct.
    let ct_ids = container_type_id_list(&input.container_types);
    match first_repeated(&ct_ids) {
        Some(k) => {
            assert(ct_ids@.map_values(|s: String| s@)[k as int] == ct_ids@[k as int]@);
            let ghost listed = container_type_ids(input.container_types@);
            assert(first_repeat(listed, k as int));
            return Err(InputError::DuplicateContainerType(ct_ids[k].clone()));
        },
        None => {},
    }
    // Rule 2: box identities are distinct.
    let b_ids = box_id_list(&input.boxes);
    match first_repeated(&b_ids) {
        Some(k) => {
            assert(b_ids@.map_values(|s: String| s@)[k as int] == b_ids@[k as int]@);
            let ghost listed = ids(input.boxes@);
            assert(first_repeat(listed, k as int));
            return Err(InputError::DuplicateBox(b_ids[k].clone()));
        },
        None => {},
    }
    // Rule 3: box type identities are distinct.
    let bt_ids = box_type_id_list(&input.box_types);
    match first_repeated(&bt_ids) {
        Some(k) => {
            assert(bt_ids@.map_values(|s: String| s@)[k as int] == bt_ids@[k as int]@);
            let ghost listed = box_type_ids(input.box_types@);
            assert(first_repeat(listed, k as int));
            return Err(InputError::DuplicateBoxType(bt_ids[k].clone()));
        },
        None => {},
    }
    // Rule 4: every box names a known box type.
    let mut i: usize = 0;
    while i < input.boxes.len()
        invariant
            0 <= i <= input.boxes@.len(),
            all_distinct(container_type_ids(input.container_types@)),
            all_distinct(ids(input.boxes@)),
            all_distinct(box_type_ids(input.box_types@)),
            forall|k: int|
                0 <= k < i ==> known_type(input.box_types@, (#[trigger] input.boxes@[k]).type_id@),
        decreases input.boxes@.len() - i,
    {
        match find_box_type(&input.box_types, &input.boxes[i].type_id) {
            Some(_) => {},
            None => {
                assert(unknown_at(*input, i as int));
                assert(forall|k: int| 0 <= k < i ==> !unknown_at(*input, k));
                return Err(
                    InputError::UnknownBoxType {
                        box_id: input.boxes[i].id.clone(),
                        type_id: input.boxes[i].type_id.clone(),
                    },
                );
            },
        }
        i = i + 1;
    }
    // Rule 5: with a bounded payload, every box has a weight.
    let mut has_payload = false;
    let mut i: usize = 0;
    while i < input.container_types.len()
        invariant
            0 <= i <= input.container_types@.len(),
            all_distinct(container_type_ids(input.container_types@)),
            all_distinct(ids(input.boxes@)),
            all_distinct(box_type_ids(input.box_types@)),
            forall|k: int| 0 <= k < input.boxes@.len() ==> !unknown_at(*input, k),
            has_payload == exists|k: int|
                0 <= k < i && (#[trigger] input.container_types@[k]).payload is Some,
        decreases input.container_types@.len() - i,
    {
        if input.container_types[i].payload.is_some() {
            has_payload = true;
        }
        i = i + 1;
    }
    assert(has_payload == any_payload(*input));
    if has_payload {
        let mut i: usize = 0;
        while i < input.boxes.len()
            invariant
                0 <= i <= input.boxes@.len(),
                any_payload(*input),
                all_distinct(container_type_ids(input.container_types@)),
                all_distinct(ids(input.boxes@)),
                all_distinct(box_type_ids(input.box_types@)),
                forall|k: int| 0 <= k < input.boxes@.len() ==> !unknown_at(*input, k),
                forall|k: int| 0 <= k < i ==> (#[trigger] input.boxes@[k]).weight is Some,
            decreases input.boxes@.len() - i,
        {
            if input.boxes[i].weight.is_none() {
                assert(any_payload(*input));
                assert(unweighed_at(*input, i as int));
                assert(forall|k: int| 0 <= k < i ==> !unweighed_at(*input, k));
                return Err(InputError::MissingWeight(input.boxes[i].id.clone()));
            }
            i = i + 1;
        }
    }
    // Rule 6: there is something to pack, and something to pack it in.
    if input.container_types.len() == 0 {
        return Err(InputError::NoContainerTypes);
    }
    if input.boxes.len() == 0 {
        return Err(InputError::NoBoxes);
    }
    Ok(())
}

/// The first box type whose identity is `type_id`.
pub fn find_box_type(types: &Vec<BoxType>, type_id: &String) -> (r: Option<usize>)
    ensures
        match r {
            Some(k) => k < types@.len() && types@[k as int].id@ == type_id@ && forall|j: int|
                0 <= j < k ==> types@[j].id@ != type_id@,
            None => !known_type(types@, type_id@),
        },
{
    let mut k: usize = 0;
    while k < types.len()
        invariant
            0 <= k <= types@.len(),
            forall|j: int| 0 <= j < k ==> types@[j].id@ != type_id@,
        decreases types@.len() - k,
    {
        if types[k].id == *type_id {
            return Some(k);
        }
        k = k + 1;
    }
    None
}

/// A copy of a box type.
fn copy_box_type(bt: &BoxType) -> (r: BoxType)
    ensures
        r.id@ == bt.id@,
        r.lx == bt.lx && r.ly == bt.ly && r.lz == bt.lz,
        r.orients@ == bt.orients@,
{
    let mut orients: Vec<Orient> = Vec::new();
    let mut i: usize = 0;
    while i < bt.orients.len()
        invariant
            0 <= i <= bt.orients@.len(),
            orients@ =~= bt.orients@.subrange(0, i as int),
        decreases bt.orients@.len() - i,
    {
        orients.push(bt.orients[i]);
        i = i + 1;
    }
    assert(orients@ =~= bt.orients@);
    BoxType { id: bt.id.clone(), lx: bt.lx, ly: bt.ly, lz: bt.lz, orients }
}

/// Gives each box the box type it names, and that type's extents.
pub fn link_box_types(box_types: &Vec<BoxType>, boxes: &mut Vec<Box>)
    requires
        forall|k: int| 0 <= k < old(boxes)@.len() ==> known_type(box_types@, (#[trigger] old(boxes)@[k]).type_id@),
    ensures
        final(boxes)@.len() == old(boxes)@.len(),
        forall|k: int| 0 <= k < final(boxes)@.len() ==> {
            let b = #[trigger] final(boxes)@[k];
            let o = old(boxes)@[k];
            &&& b.id == o.id && b.type_id == o.type_id && b.weight == o.weight
            &&& b.x == o.x && b.y == o.y && b.z == o.z && b.orient == o.orient
            &&& exists|t: int| 0 <= t < box_types@.len() && box_types@[t].id@ == o.type_id@
                && b.box_type.id@ == box_types@[t].id@ && b.box_type.lx == box_types@[t].lx
                && b.box_type.ly == box_types@[t].ly && b.box_type.lz == box_types@[t].lz
                && b.box_type.orients@ == box_types@[t].orients@
            &&& b.lx == b.box_type.lx && b.ly == b.box_type.ly && b.lz == b.box_type.lz
        },
{
    let ghost orig = boxes@;
    let n = boxes.len();
    let mut i: usize = 0;
    while i < n
        invariant
            n == boxes@.len() && n == orig.len(),
            0 <= i <= n,
            forall|k: int| 0 <= k < n ==> known_type(box_types@, (#[trigger] orig[k]).type_id@),
            forall|k: int| i <= k < n ==> boxes@[k] == orig[k],
            forall|k: int| 0 <= k < i ==> {
                let b = #[trigger] boxes@[k];
                let o = orig[k];
                &&& b.id == o.id && b.type_id == o.type_id && b.weight == o.weight
                &&& b.x == o.x && b.y == o.y && b.z == o.z && b.orient == o.orient
                &&& exists|t: int| 0 <= t < box_types@.len() && box_types@[t].id@ == o.type_id@
                    && b.box_type.id@ == box_types@[t].id@ && b.box_type.lx == box_types@[t].lx
                    && b.box_type.ly == box_types@[t].ly && b.box_type.lz == box_types@[t].lz
                    && b.box_type.orients@ == box_types@[t].orients@
                &&& b.lx == b.box_type.lx && b.ly == b.box_type.ly && b.lz == b.box_type.lz
            },
        decreases n - i,
    {
        assert(boxes@[i as int] == orig[i as int]);
        let found = find_box_type(box_types, &boxes[i].type_id);
        let t = match found {
            Some(t) => t,
            None => {
                assert(known_type(box_types@, orig[i as int].type_id@));
                return;
            },
        };
        let bt = copy_box_type(&box_types[t]);
        boxes[i].lx = bt.lx;
        boxes[i].ly = bt.ly;
        boxes[i].lz = bt.lz;
        boxes[i].box_type = bt;
        assert(box_types@[t as int].id@ == orig[i as int].type_id@);
        i = i + 1;
    }
}

} // verus!
