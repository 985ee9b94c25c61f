use vstd::prelude::*;
use vstd::multiset::Multiset;
use crate::constraint::{
    all_placed, contact_area, feasible, lemma_contact_area_bound, overlaps, support_area,
    total_weight, weight_of_boxes, within_bounds,
};
use crate::geometry::{dims_match, lemma_volume_within_container};
use crate::placement::{
    corners_fit, first_fit, fits_at, fits_nowhere, is_candidate_list, lemma_search_unique,
    search_outcome, trial, try_pack, Point,
};
use crate::entities::{Box, Container, ContainerType, Input, Orient, Output, Ratio};

verus! {

broadcast use {
    vstd::seq_lib::group_to_multiset_ensures,
    vstd::multiset::group_multiset_axioms,
    vstd::seq_lib::lemma_multiset_commutative,
};

pub open spec fn ids(s: Seq<Box>) -> Seq<Seq<char>> {
    s.map_values(|b: Box| b.id@)
}

/// The identities of the boxes of each container, container after container.
pub open spec fn packed_ids(cs: Seq<Container>) -> Seq<Seq<char>>
    decreases cs.len(),
{
    if cs.len() == 0 {
        Seq::empty()
    } else {
        packed_ids(cs.drop_last()) + ids(cs.last().boxes@)
    }
}

pub open spec fn total_volume(s: Seq<Box>) -> int
    decreases s.len(),
{
    if s.len() == 0 {
        0
    } else {
        total_volume(s.drop_last()) + s.last().spec_volume()
    }
}

pub open spec fn capped(v: int) -> int {
    if v > u128::MAX {
        u128::MAX as int
    } else {
        v
    }
}

/// Every box of `s` is placed and meets all four constraints against all
/// the other boxes of `s`.
pub open spec fn mutually_feasible(ct: ContainerType, s: Seq<Box>, ratio: Ratio) -> bool {
    forall|i: int|
        0 <= i < s.len() ==> (#[trigger] s[i]).is_placed() && feasible(ct, s.remove(i), ratio, s[i])
}

/// Every box of `s` has the extents of its type under its orientation.
pub open spec fn all_dims_match(s: Seq<Box>) -> bool {
    forall|i: int| 0 <= i < s.len() ==> dims_match(#[trigger] s[i])
}

/// A finished container: it holds at least one box, every box meets all
/// constraints against the others, and its rates are those of its boxes.
pub open spec fn container_ok(c: Container, ratio: Ratio) -> bool {
    &&& c.boxes@.len() > 0
    &&& mutually_feasible(c.container_type, c.boxes@, ratio)
    &&& all_dims_match(c.boxes@)
    &&& c.volume_rate == (Ratio {
        num: total_volume(c.boxes@) as u128,
        den: c.container_type.spec_volume() as u128,
    })
    &&& c.weight_rate == match c.container_type.payload {
        Some(p) => Some(Ratio { num: total_weight(c.boxes@) as u128, den: p as u128 }),
        None => None,
    }
}

/// A unit of `ct` taken from stock.
pub open spec fn taken(ct: ContainerType) -> ContainerType {
    ContainerType {
        quantity: match ct.quantity {
            Some(q) => Some((q - 1) as u32),
            None => None,
        },
        ..ct
    }
}

/// Index `i` is the type the selector picks for boxes of total volume
/// `total`: the first available type that holds that volume; failing that,
/// the last available type.
pub open spec fn selects(types: Seq<ContainerType>, total: int, i: int) -> bool {
    &&& 0 <= i < types.len()
    &&& types[i].available()
    &&& {
        ||| (types[i].spec_volume() >= total && forall|j: int|
            0 <= j < i ==> !(#[trigger] types[j].available() && types[j].spec_volume() >= total))
        ||| ((forall|j: int|
            0 <= j < types.len() ==> !(#[trigger] types[j].available() && types[j].spec_volume()
                >= total)) && forall|j: int|
            i < j < types.len() ==> !(#[trigger] types[j]).available())
    }
}

/// The selector's choice follows from the catalog and the volume to hold:
/// at most one index is selected.
pub proof fn lemma_selection_unique(types: Seq<ContainerType>, total: int, i: int, j: int)
    requires
        selects(types, total, i),
        selects(types, total, j),
    ensures
        i == j,
{
    if i < j {
        assert(!(types[i].available() && types[i].spec_volume() >= total));
        assert(!types[j].available());
    } else if j < i {
        assert(!(types[j].available() && types[j].spec_volume() >= total));
        assert(!types[i].available());
    }
}

proof fn lemma_total_weight_remove(s: Seq<Box>, i: int)
    requires
        0 <= i < s.len(),
    ensures
        total_weight(s.remove(i)) + s[i].spec_weight() == total_weight(s),
    decreases s.len(),
{
    if i == s.len() - 1 {
        assert(s.remove(i) =~= s.drop_last());
    } else {
        assert(s.remove(i).drop_last() =~= s.drop_last().remove(i));
        assert(s.remove(i).last() == s.last());
        lemma_total_weight_remove(s.drop_last(), i);
    }
}

proof fn lemma_totals_nonneg(s: Seq<Box>)
    ensures
        total_weight(s) >= 0,
        total_volume(s) >= 0,
    decreases s.len(),
{
    if s.len() > 0 {
        lemma_totals_nonneg(s.drop_last());
        crate::entities::lemma_volume_bound(s.last().box_type.lx, s.last().box_type.ly, s.last().box_type.lz);
    }
}

proof fn lemma_total_volume_ge_first(s: Seq<Box>)
    requires
        s.len() > 0,
    ensures
        total_volume(s) >= s[0].spec_volume(),
    decreases s.len(),
{
    lemma_totals_nonneg(s);
    crate::entities::lemma_volume_bound(s.last().box_type.lx, s.last().box_type.ly, s.last().box_type.lz);
    if s.len() > 1 {
        lemma_total_volume_ge_first(s.drop_last());
        assert(s.drop_last()[0] == s[0]);
    } else {
        assert(total_volume(s.drop_last()) == 0);
    }
}

/// Boxes that meet all constraints against each other use no more than
/// the container's volume.
proof fn lemma_feasible_volume(ct: ContainerType, s: Seq<Box>, ratio: Ratio)
    requires
        mutually_feasible(ct, s, ratio),
        all_dims_match(s),
    ensures
        0 <= total_volume(s) <= ct.spec_volume() <= 0x1_0000_0000_0000_0000_0000_0000int,
{
    assert forall|i: int| 0 <= i < s.len() implies (#[trigger] s[i]).is_placed() && within_bounds(
        ct,
        s[i],
    ) && dims_match(s[i]) by {
        assert(s[i].is_placed() && feasible(ct, s.remove(i), ratio, s[i]));
    }
    assert forall|i: int, j: int| 0 <= i < j < s.len() implies !overlaps(
        #[trigger] s[i],
        #[trigger] s[j],
    ) by {
        assert(s[i].is_placed() && feasible(ct, s.remove(i), ratio, s[i]));
        assert(s.remove(i)[j - 1] == s[j]);
    }
    lemma_volume_within_container(ct, s);
    lemma_totals_nonneg(s);
    crate::entities::lemma_volume_bound(ct.lx, ct.ly, ct.lz);
}

/// The box's type has extents greater than zero.
pub open spec fn has_extent(b: Box) -> bool {
    b.box_type.lx > 0 && b.box_type.ly > 0 && b.box_type.lz > 0
}

/// The two boxes agree in all but where and how they stand: identity, type
/// and weight.
pub open spec fn same_box(a: Box, b: Box) -> bool {
    a.id == b.id && a.type_id == b.type_id && a.weight == b.weight && a.box_type == b.box_type
}

/// `b` is one of the boxes of `src`, placed or turned.
pub open spec fn from_input(b: Box, src: Seq<Box>) -> bool {
    exists|j: int| 0 <= j < src.len() && same_box(#[trigger] src[j], b)
}

pub open spec fn all_from_input(s: Seq<Box>, src: Seq<Box>) -> bool {
    forall|m: int| 0 <= m < s.len() ==> from_input(#[trigger] s[m], src)
}

proof fn lemma_from_input_push(s: Seq<Box>, b: Box, src: Seq<Box>)
    requires
        all_from_input(s, src),
        from_input(b, src),
    ensures
        all_from_input(s.push(b), src),
{
    assert forall|m: int| 0 <= m < s.push(b).len() implies from_input(#[trigger] s.push(b)[m], src) by {
        if m < s.len() {
            assert(s.push(b)[m] == s[m]);
        }
    }
}

/// Every box of `s` has extents greater than zero.
pub open spec fn all_have_extent(s: Seq<Box>) -> bool {
    forall|i: int| 0 <= i < s.len() ==> has_extent(#[trigger] s[i])
}

/// Every box of `s` weighs more than nothing.
pub open spec fn all_weigh(s: Seq<Box>) -> bool {
    forall|i: int| 0 <= i < s.len() ==> (#[trigger] s[i]).spec_weight() > 0
}

/// In a finished container the used volume is no more than the container's,
/// and above zero where the boxes have extents. Where the payload is
/// bounded, the boxes weigh no more than it, and more than nothing where
/// each box weighs something.
pub proof fn lemma_rates_in_range(c: Container, ratio: Ratio)
    requires
        container_ok(c, ratio),
    ensures
        c.volume_rate.num == total_volume(c.boxes@),
        c.volume_rate.num <= c.volume_rate.den,
        all_have_extent(c.boxes@) ==> 0 < c.volume_rate.num,
        c.weight_rate is Some <==> c.container_type.payload is Some,
        c.weight_rate is Some ==> c.weight_rate.unwrap().num <= c.weight_rate.unwrap().den,
        c.weight_rate is Some && all_weigh(c.boxes@) ==> 0 < c.weight_rate.unwrap().num,
{
    let s = c.boxes@;
    lemma_feasible_volume(c.container_type, s, ratio);
    if all_have_extent(s) {
        assert(has_extent(s[0]));
        assert(s[0].spec_volume() > 0) by (nonlinear_arith)
            requires
                s[0].spec_volume() == s[0].box_type.lx as int * s[0].box_type.ly as int
                    * s[0].box_type.lz as int,
                s[0].box_type.lx > 0,
                s[0].box_type.ly > 0,
                s[0].box_type.lz > 0,
        ;
        lemma_total_volume_ge_first(s);
    }
    if c.container_type.payload is Some {
        assert(s[0].is_placed() && feasible(c.container_type, s.remove(0), ratio, s[0]));
        lemma_total_weight_remove(s, 0);
        lemma_totals_nonneg(s.remove(0));
    }
}

proof fn lemma_mul_mono(a: int, b: int, d: int)
    requires
        a <= b,
        0 <= d,
    ensures
        a * d <= b * d,
{
    assert(a * d <= b * d) by (nonlinear_arith)
        requires a <= b, 0 <= d;
}

/// Adding a box that is feasible among `s` keeps every box of `s` feasible.
proof fn lemma_push_feasible(ct: ContainerType, s: Seq<Box>, ratio: Ratio, b: Box)
    requires
        mutually_feasible(ct, s, ratio),
        b.is_placed(),
        feasible(ct, s, ratio, b),
        ratio.is_fraction(),
    ensures
        mutually_feasible(ct, s.push(b), ratio),
{
    let t = s.push(b);
    assert forall|i: int| 0 <= i < t.len() implies (#[trigger] t[i]).is_placed() && feasible(
        ct,
        t.remove(i),
        ratio,
        t[i],
    ) by {
        if i == s.len() {
            assert(t.remove(i) =~= s);
        } else {
            let u = s.remove(i);
            assert(t.remove(i) =~= u.push(b));
            assert(s[i].is_placed() && feasible(ct, u, ratio, s[i]));
            assert(t[i] == s[i]);
            assert(!overlaps(b, s[i]));
            assert(u.push(b).drop_last() =~= u);
            lemma_contact_area_bound(s[i], b);
            assert(support_area(s[i], u.push(b)) == support_area(s[i], u) + contact_area(s[i], b));
            lemma_mul_mono(support_area(s[i], u), support_area(s[i], u.push(b)), ratio.den as int);
            assert(total_weight(u.push(b)) == total_weight(u) + b.spec_weight());
            lemma_total_weight_remove(s, i);
        }
    }
}

proof fn lemma_ids_push(s: Seq<Box>, b: Box)
    ensures
        ids(s.push(b)) == ids(s).push(b.id@),
{
    assert(ids(s.push(b)) =~= ids(s).push(b.id@));
}

proof fn lemma_ids_insert(s: Seq<Box>, j: int, b: Box)
    requires
        0 <= j <= s.len(),
    ensures
        ids(s.insert(j, b)) == ids(s).insert(j, b.id@),
{
    assert(ids(s.insert(j, b)) =~= ids(s).insert(j, b.id@));
}

proof fn lemma_ids_remove(s: Seq<Box>, j: int)
    requires
        0 <= j < s.len(),
    ensures
        ids(s.remove(j)) == ids(s).remove(j),
        ids(s)[j] == s[j].id@,
{
    assert(ids(s.remove(j)) =~= ids(s).remove(j));
}

/// Where a box of volume `v` goes among `r`, scanning from `j`: before the
/// first box of smaller volume.
pub open spec fn desc_pos(r: Seq<Box>, v: int, j: int) -> int
    decreases r.len() - j,
{
    if j >= r.len() || r[j].spec_volume() < v {
        j
    } else {
        desc_pos(r, v, j + 1)
    }
}

/// The boxes of `s` by volume, largest first, each inserted after the boxes
/// at least as large: boxes of equal volume keep their order.
pub open spec fn by_volume_desc(s: Seq<Box>) -> Seq<Box>
    decreases s.len(),
{
    if s.len() == 0 {
        s
    } else {
        let r = by_volume_desc(s.drop_last());
        r.insert(desc_pos(r, s.last().spec_volume(), 0), s.last())
    }
}

/// Where a container type of volume `v` goes among `r`, scanning from `j`:
/// before the first type of larger volume.
pub open spec fn asc_pos(r: Seq<ContainerType>, v: int, j: int) -> int
    decreases r.len() - j,
{
    if j >= r.len() || r[j].spec_volume() > v {
        j
    } else {
        asc_pos(r, v, j + 1)
    }
}

/// The container types of `s` by volume, smallest first, each inserted
/// after the types no larger: types of equal volume keep their order.
pub open spec fn by_volume_asc(s: Seq<ContainerType>) -> Seq<ContainerType>
    decreases s.len(),
{
    if s.len() == 0 {
        s
    } else {
        let r = by_volume_asc(s.drop_last());
        r.insert(asc_pos(r, s.last().spec_volume(), 0), s.last())
    }
}

/// Orders boxes by volume, largest first, keeping the order of equals.
fn sort_boxes(boxes: Vec<Box>) -> (r: Vec<Box>)
    ensures
        r@ == by_volume_desc(boxes@),
        r@.to_multiset() == boxes@.to_multiset(),
        ids(r@).to_multiset() == ids(boxes@).to_multiset(),
        forall|i: int, j: int|
            0 <= i < j < r@.len() ==> (#[trigger] r@[i]).spec_volume() >= (#[trigger] r@[j]).spec_volume(),
{
    let ghost all = boxes@;
    let mut rest = boxes;
    let mut r: Vec<Box> = Vec::new();
    while rest.len() > 0
        invariant
            rest@.len() <= all.len(),
            rest@ == all.subrange(all.len() - rest@.len(), all.len() as int),
            r@ == by_volume_desc(all.subrange(0, all.len() - rest@.len())),
            r@.to_multiset().add(rest@.to_multiset()) == all.to_multiset(),
            ids(r@).to_multiset().add(ids(rest@).to_multiset()) == ids(all).to_multiset(),
            forall|i: int, j: int|
                0 <= i < j < r@.len() ==> (#[trigger] r@[i]).spec_volume() >= (#[trigger] r@[j]).spec_volume(),
        decreases rest@.len(),
    {
        let ghost before = rest@;
        proof {
            lemma_ids_remove(before, 0);
        }
        let ghost k = all.len() - rest@.len();
        let b = rest.remove(0);
        assert(rest@ =~= all.subrange(k + 1, all.len() as int));
        assert(b == all[k]);
        assert(all.subrange(0, k + 1).drop_last() =~= all.subrange(0, k));
        proof {
            assert(rest@ == before.remove(0));
            assert(before[0] == b);
            assert(before.contains(b));
            vstd::seq_lib::to_multiset_remove(before, 0);
            assert(rest@.to_multiset() == before.to_multiset().remove(b));
        }
        let v = b.volume();
        let mut j: usize = 0;
        while j < r.len() && r[j].volume() >= v
            invariant
                0 <= j <= r@.len(),
                desc_pos(r@, v as int, 0) == desc_pos(r@, v as int, j as int),
                v == b.spec_volume(),
                forall|k: int| 0 <= k < j ==> (#[trigger] r@[k]).spec_volume() >= v,
            decreases r@.len() - j,
        {
            j = j + 1;
        }
        assert(desc_pos(r@, v as int, j as int) == j);
        let ghost s = r@;
        proof {
            lemma_ids_insert(s, j as int, b);
        }
        r.insert(j, b);
        assert(r@ == by_volume_desc(all.subrange(0, k + 1)));
        assert(r@ == s.insert(j as int, b));
        proof {
            vstd::seq_lib::to_multiset_insert(s, j as int, b);
        }
        assert(r@.to_multiset() == s.to_multiset().insert(b));
        assert(ids(r@) == ids(s).insert(j as int, b.id@));
        proof {
            vstd::seq_lib::to_multiset_insert(ids(s), j as int, b.id@);
            vstd::seq_lib::to_multiset_remove(ids(before), 0);
        }
        assert(ids(r@).to_multiset() == ids(s).to_multiset().insert(b.id@));
        assert(ids(before).contains(b.id@)) by {
            assert(ids(before)[0] == b.id@);
        }
        assert(ids(rest@).to_multiset() == ids(before).to_multiset().remove(b.id@));
        assert forall|a: int, c: int| 0 <= a < c < r@.len() implies (#[trigger] r@[a]).spec_volume()
            >= (#[trigger] r@[c]).spec_volume() by {
            if c < j {
            } else if a > j {
                assert(r@[a] == s[a - 1] && r@[c] == s[c - 1]);
            } else if a == j {
                assert(r@[c] == s[c - 1]);
                assert(s[j as int].spec_volume() < v);
            } else if c == j {
            } else {
                assert(r@[c] == s[c - 1]);
            }
        }
        assert(r@.to_multiset().add(rest@.to_multiset()) =~= all.to_multiset());
        assert(ids(r@).to_multiset().add(ids(rest@).to_multiset()) =~= ids(all).to_multiset());
    }
    assert(all.subrange(0, all.len() as int) =~= all);
    assert(rest@.to_multiset() =~= Multiset::empty());
    assert(ids(rest@).to_multiset() =~= Multiset::empty());
    assert(r@.to_multiset() =~= all.to_multiset());
    assert(ids(r@).to_multiset() =~= ids(all).to_multiset());
    r
}

/// Orders container types by volume, smallest first, keeping the order of
/// equals.
fn sort_container_types(types: Vec<ContainerType>) -> (r: Vec<ContainerType>)
    ensures
        r@ == by_volume_asc(types@),
        r@.to_multiset() == types@.to_multiset(),
        forall|i: int, j: int|
            0 <= i < j < r@.len() ==> (#[trigger] r@[i]).spec_volume() <= (#[trigger] r@[j]).spec_volume(),
{
    let ghost all = types@;
    let mut rest = types;
    let mut r: Vec<ContainerType> = Vec::new();
    while rest.len() > 0
        invariant
            rest@.len() <= all.len(),
            rest@ == all.subrange(all.len() - rest@.len(), all.len() as int),
            r@ == by_volume_asc(all.subrange(0, all.len() - rest@.len())),
            r@.to_multiset().add(rest@.to_multiset()) == all.to_multiset(),
            forall|i: int, j: int|
                0 <= i < j < r@.len() ==> (#[trigger] r@[i]).spec_volume() <= (#[trigger] r@[j]).spec_volume(),
        decreases rest@.len(),
    {
        let ghost before = rest@;
        let ghost k = all.len() - rest@.len();
        let ct = rest.remove(0);
        assert(rest@ =~= all.subrange(k + 1, all.len() as int));
        assert(ct == all[k]);
        assert(all.subrange(0, k + 1).drop_last() =~= all.subrange(0, k));
        proof {
            assert(rest@ == before.remove(0));
            assert(before[0] == ct);
            assert(before.contains(ct));
            vstd::seq_lib::to_multiset_remove(before, 0);
            assert(rest@.to_multiset() == before.to_multiset().remove(ct));
        }
        let v = ct.volume();
        let mut j: usize = 0;
        while j < r.len() && r[j].volume() <= v
            invariant
                0 <= j <= r@.len(),
                asc_pos(r@, v as int, 0) == asc_pos(r@, v as int, j as int),
                v == ct.spec_volume(),
                forall|k: int| 0 <= k < j ==> (#[trigger] r@[k]).spec_volume() <= v,
            decreases r@.len() - j,
        {
            j = j + 1;
        }
        assert(asc_pos(r@, v as int, j as int) == j);
        let ghost s = r@;
        r.insert(j, ct);
        assert(r@ == by_volume_asc(all.subrange(0, k + 1)));
        assert(r@ == s.insert(j as int, ct));
        proof {
            vstd::seq_lib::to_multiset_insert(s, j as int, ct);
        }
        assert(r@.to_multiset() == s.to_multiset().insert(ct));
        assert forall|a: int, c: int| 0 <= a < c < r@.len() implies (#[trigger] r@[a]).spec_volume()
            <= (#[trigger] r@[c]).spec_volume() by {
            if c < j {
            } else if a > j {
                assert(r@[a] == s[a - 1] && r@[c] == s[c - 1]);
            } else if a == j {
                assert(r@[c] == s[c - 1]);
                assert(s[j as int].spec_volume() > v);
            } else if c == j {
            } else {
                assert(r@[c] == s[c - 1]);
            }
        }
        assert(r@.to_multiset().add(rest@.to_multiset()) =~= all.to_multiset());
    }
    assert(all.subrange(0, all.len() as int) =~= all);
    assert(rest@.to_multiset() =~= Multiset::empty());
    assert(r@.to_multiset() =~= all.to_multiset());
    r
}

/// The summed volume of `boxes`, capped at the largest `u128`.
fn volume_of_boxes(boxes: &Vec<Box>) -> (r: u128)
    ensures
        r == capped(total_volume(boxes@)),
{
    let mut sum: u128 = 0;
    let mut i: usize = 0;
    while i < boxes.len()
        invariant
            0 <= i <= boxes@.len(),
            sum == capped(total_volume(boxes@.subrange(0, i as int))),
            0 <= total_volume(boxes@.subrange(0, i as int)),
        decreases boxes@.len() - i,
    {
        proof {
            let t = boxes@.subrange(0, i + 1);
            assert(t.drop_last() =~= boxes@.subrange(0, i as int));
            crate::entities::lemma_volume_bound(boxes@[i as int].box_type.lx, boxes@[i as int].box_type.ly, boxes@[i as int].box_type.lz);
        }
        sum = sum.saturating_add(boxes[i].volume());
        i = i + 1;
    }
    assert(boxes@.subrange(0, boxes@.len() as int) =~= boxes@);
    sum
}



proof fn lemma_corners_fit(ct: ContainerType, s: Seq<Box>, ratio: Ratio)
    requires
        mutually_feasible(ct, s, ratio),
    ensures
        corners_fit(s),
        all_placed(s),
{
    assert forall|j: int| 0 <= j < s.len() implies (#[trigger] s[j]).is_placed() by {
        assert(s[j].is_placed() && feasible(ct, s.remove(j), ratio, s[j]));
    }
    assert forall|j: int| 0 <= j < s.len() implies {
        &&& (#[trigger] s[j]).is_placed()
        &&& s[j].px() + s[j].lx <= u32::MAX
        &&& s[j].py() + s[j].ly <= u32::MAX
        &&& s[j].pz() + s[j].lz <= u32::MAX
    } by {
        assert(s[j].is_placed() && feasible(ct, s.remove(j), ratio, s[j]));
        assert(within_bounds(ct, s[j]));
    }
}

proof fn lemma_packed_ids_push(cs: Seq<Container>, c: Container)
    ensures
        packed_ids(cs.push(c)) == packed_ids(cs) + ids(c.boxes@),
{
    assert(cs.push(c).drop_last() =~= cs);
}

/// The two container types have the same extents and payload.
pub open spec fn same_shape(a: ContainerType, b: ContainerType) -> bool {
    a.lx == b.lx && a.ly == b.ly && a.lz == b.lz && a.payload == b.payload
}

/// The units in stock over the types with a bounded quantity.
pub open spec fn stock(cat: Seq<ContainerType>) -> int
    decreases cat.len(),
{
    if cat.len() == 0 {
        0
    } else {
        stock(cat.drop_last()) + match cat.last().quantity {
            Some(q) => q as int,
            None => 0,
        }
    }
}

/// In an empty container of type `ct`, box `b` fits in none of its
/// orientations.
pub open spec fn places_nowhere(ct: ContainerType, ratio: Ratio, b: Box) -> bool {
    search_outcome(ct, Seq::empty(), ratio, b, false, b)
}

proof fn lemma_stock_taken(cat: Seq<ContainerType>, i: int)
    requires
        0 <= i < cat.len(),
        cat[i].available(),
    ensures
        stock(cat.update(i, taken(cat[i]))) >= stock(cat) - 1,
    decreases cat.len(),
{
    let u = cat.update(i, taken(cat[i]));
    if i == cat.len() - 1 {
        assert(u.drop_last() =~= cat.drop_last());
    } else {
        assert(u.drop_last() =~= cat.drop_last().update(i, taken(cat[i])));
        lemma_stock_taken(cat.drop_last(), i);
    }
}

proof fn lemma_stock_empty(cat: Seq<ContainerType>)
    requires
        forall|j: int| 0 <= j < cat.len() ==> !(#[trigger] cat[j]).available(),
    ensures
        stock(cat) == 0,
    decreases cat.len(),
{
    if cat.len() > 0 {
        assert(!cat[cat.len() - 1].available());
        lemma_stock_empty(cat.drop_last());
    }
}

/// `a` is a copy of the container type `b`: same identity, extents,
/// payload and stock.
pub open spec fn copy_of(a: ContainerType, b: ContainerType) -> bool {
    a.id@ == b.id@ && same_shape(a, b) && a.quantity == b.quantity
}

/// What the placement search gives for `item` among `packed`: whether a
/// place is found, and the box as it then stands.
pub open spec fn search_result(ct: ContainerType, packed: Seq<Box>, ratio: Ratio, item: Box) -> (
    bool,
    Box,
) {
    choose|r: (bool, Box)| search_outcome(ct, packed, ratio, item, r.0, r.1)
}

/// One round in a container of type `ct`: the boxes of `todo` are tried in
/// order, each against the boxes placed so far; a box that finds a place
/// joins `placed`, one that does not joins `left`. Gives the final
/// `(placed, left)`.
pub open spec fn fill(ct: ContainerType, ratio: Ratio, placed: Seq<Box>, left: Seq<Box>, todo: Seq<
    Box,
>) -> (Seq<Box>, Seq<Box>)
    decreases todo.len(),
{
    if todo.len() == 0 {
        (placed, left)
    } else {
        let r = search_result(ct, placed, ratio, todo[0]);
        if r.0 {
            fill(ct, ratio, placed.push(r.1), left, todo.drop_first())
        } else {
            fill(ct, ratio, placed, left.push(todo[0]), todo.drop_first())
        }
    }
}

/// Some container type is selected for the boxes of `pending`.
pub open spec fn can_select(cat: Seq<ContainerType>, pending: Seq<Box>) -> bool {
    exists|i: int| #[trigger] selects(cat, total_volume(pending), i)
}

/// The index the selector picks for the boxes of `pending`.
pub open spec fn selection(cat: Seq<ContainerType>, pending: Seq<Box>) -> int {
    choose|i: int| #[trigger] selects(cat, total_volume(pending), i)
}

/// The packing from stock `cat` of the boxes `pending`, after the rounds
/// `done`: while boxes remain and a type is selected, a unit of the selected
/// type is taken and filled; a round that places no box ends the packing.
/// Gives the rounds, each as the container type (less the unit taken) and
/// its boxes, and the boxes left over.
pub open spec fn packing(
    cat: Seq<ContainerType>,
    ratio: Ratio,
    pending: Seq<Box>,
    done: Seq<(ContainerType, Seq<Box>)>,
) -> (Seq<(ContainerType, Seq<Box>)>, Seq<Box>)
    decreases pending.len(),
{
    if pending.len() == 0 || !can_select(cat, pending) {
        (done, pending)
    } else {
        let i = selection(cat, pending);
        let r = fill(cat[i], ratio, Seq::empty(), Seq::empty(), pending);
        if r.0.len() == 0 || r.1.len() >= pending.len() {
            (done, r.1)
        } else {
            packing(cat.update(i, taken(cat[i])), ratio, r.1, done.push((taken(cat[i]), r.0)))
        }
    }
}

proof fn lemma_fill_len(
    ct: ContainerType,
    ratio: Ratio,
    placed: Seq<Box>,
    left: Seq<Box>,
    todo: Seq<Box>,
)
    ensures
        fill(ct, ratio, placed, left, todo).0.len() + fill(ct, ratio, placed, left, todo).1.len()
            == placed.len() + left.len() + todo.len(),
    decreases todo.len(),
{
    if todo.len() > 0 {
        let r = search_result(ct, placed, ratio, todo[0]);
        if r.0 {
            lemma_fill_len(ct, ratio, placed.push(r.1), left, todo.drop_first());
        } else {
            lemma_fill_len(ct, ratio, placed, left.push(todo[0]), todo.drop_first());
        }
    }
}

/// The search outcome depends on the container type only through its
/// extents and payload.
proof fn lemma_search_shape(
    c1: ContainerType,
    c2: ContainerType,
    packed: Seq<Box>,
    ratio: Ratio,
    item: Box,
    found: bool,
    placed: Box,
)
    requires
        same_shape(c1, c2),
        search_outcome(c1, packed, ratio, item, found, placed),
    ensures
        search_outcome(c2, packed, ratio, item, found, placed),
{
    let os = item.box_type.orients@;
    let cs = choose|cs: Seq<Point>|
        #![trigger is_candidate_list(cs, packed)]
        is_candidate_list(cs, packed) && if found {
            exists|oi: int, ci: int|
                #![trigger first_fit(c1, packed, ratio, item, cs, oi, ci)]
                first_fit(c1, packed, ratio, item, cs, oi, ci) && placed == trial(
                    item,
                    os[oi],
                    cs[ci],
                )
        } else {
            fits_nowhere(c1, packed, ratio, item, cs) && placed == item
        };
    assert forall|o: Orient, p: Point|
        fits_at(c1, packed, ratio, item, o, p) == fits_at(c2, packed, ratio, item, o, p) by {}
    if found {
        let (oi, ci) = choose|oi: int, ci: int|
            #![trigger first_fit(c1, packed, ratio, item, cs, oi, ci)]
            first_fit(c1, packed, ratio, item, cs, oi, ci) && placed == trial(item, os[oi], cs[ci]);
        assert(first_fit(c2, packed, ratio, item, cs, oi, ci));
    } else {
        assert(fits_nowhere(c2, packed, ratio, item, cs));
    }
    assert(is_candidate_list(cs, packed));
}

proof fn lemma_search_result(
    ct: ContainerType,
    packed: Seq<Box>,
    ratio: Ratio,
    item: Box,
    found: bool,
    placed: Box,
)
    requires
        search_outcome(ct, packed, ratio, item, found, placed),
    ensures
        search_result(ct, packed, ratio, item) == (found, placed),
{
    let w = (found, placed);
    assert(search_outcome(ct, packed, ratio, item, w.0, w.1));
    let r = search_result(ct, packed, ratio, item);
    lemma_search_unique(ct, packed, ratio, item, r.0, r.1, found, placed);
}

/// Packs boxes into containers, one container per round.
pub struct Algorithm {
    container_types: Vec<ContainerType>,
    container: Container,
    unpacked_boxes: Vec<Box>,
    packed_boxes: Vec<Box>,
    output: Output,
    support_rate: Ratio,
}

fn empty_container() -> (r: Container)
    ensures
        r.boxes@.len() == 0,
{
    Container {
        container_type: ContainerType {
            id: String::new(),
            lx: 0,
            ly: 0,
            lz: 0,
            payload: None,
            quantity: None,
        },
        boxes: Vec::new(),
        volume_rate: Ratio { num: 0, den: 1 },
        weight_rate: None,
    }
}

impl Algorithm {
    /// The boxes still to pack, in the order they are tried.
    pub closed spec fn pending(&self) -> Seq<Box> {
        self.unpacked_boxes@
    }

    /// The container types with their remaining stock, in the order scanned.
    pub closed spec fn catalog(&self) -> Seq<ContainerType> {
        self.container_types@
    }

    pub closed spec fn ratio(&self) -> Ratio {
        self.support_rate
    }

    pub closed spec fn box_types(&self) -> Seq<crate::entities::BoxType> {
        self.output.box_types@
    }

    /// Ready to run: a support ratio between zero and one, and nothing
    /// packed or set aside yet.
    pub closed spec fn wf(&self) -> bool {
        &&& self.support_rate.is_fraction()
        &&& self.output.containers@.len() == 0
        &&& self.output.unpacked_boxes@.len() == 0
        &&& self.packed_boxes@.len() == 0
    }

    /// Takes the input: boxes are ordered by volume, largest first, and
    /// container types by volume, smallest first; either order keeps
    /// entries of equal volume as they came. Nothing is packed yet.
    pub fn new(input: Input) -> (r: Self)
        requires
            input.support_rate.is_fraction(),
        ensures
            r.wf(),
            r.pending() == by_volume_desc(input.boxes@),
            r.catalog() == by_volume_asc(input.container_types@),
            r.pending().to_multiset() == input.boxes@.to_multiset(),
            ids(r.pending()).to_multiset() == ids(input.boxes@).to_multiset(),
            forall|i: int, j: int|
                0 <= i < j < r.pending().len() ==> (#[trigger] r.pending()[i]).spec_volume()
                    >= (#[trigger] r.pending()[j]).spec_volume(),
            r.catalog().to_multiset() == input.container_types@.to_multiset(),
            forall|i: int, j: int|
                0 <= i < j < r.catalog().len() ==> (#[trigger] r.catalog()[i]).spec_volume()
                    <= (#[trigger] r.catalog()[j]).spec_volume(),
            r.ratio() == input.support_rate,
            r.box_types() == input.box_types@,
    {
        let unpacked_boxes = sort_boxes(input.boxes);
        let container_types = sort_container_types(input.container_types);
        Algorithm {
            container_types,
            container: empty_container(),
            unpacked_boxes,
            packed_boxes: Vec::new(),
            output: Output {
                box_types: input.box_types,
                containers: Vec::new(),
                unpacked_boxes: Vec::new(),
            },
            support_rate: input.support_rate,
        }
    }

    /// Takes from stock the container type for the next round and makes it
    /// the current container; false when no type has stock left.
    fn generate_container(&mut self) -> (r: bool)
        ensures
            r ==> exists|i: int|
                selects(old(self).container_types@, total_volume(old(self).unpacked_boxes@), i)
                    && final(self).container_types@ == old(self).container_types@.update(
                    i,
                    taken(old(self).container_types@[i]),
                ) && copy_of(
                    final(self).container.container_type,
                    taken(old(self).container_types@[i]),
                ),
            r ==> final(self).container.boxes@.len() == 0,
            !r ==> final(self).container_types@ == old(self).container_types@ && forall|j: int|
                0 <= j < old(self).container_types@.len() ==> !(#[trigger] old(
                    self,
                ).container_types@[j]).available(),
            !r ==> final(self).container == old(self).container,
            final(self).unpacked_boxes == old(self).unpacked_boxes,
            final(self).packed_boxes == old(self).packed_boxes,
            final(self).output == old(self).output,
            final(self).support_rate == old(self).support_rate,
    {
        let total = volume_of_boxes(&self.unpacked_boxes);
        let ghost t = total_volume(self.unpacked_boxes@);
        let n = self.container_types.len();
        let mut i: usize = 0;
        let mut found = false;
        while !found && i < n
            invariant
                n == self.container_types@.len(),
                0 <= i <= n,
                total == capped(t),
                0 <= t,
                forall|j: int|
                    0 <= j < i ==> !(#[trigger] self.container_types@[j].available()
                        && self.container_types@[j].spec_volume() >= t),
                found ==> i < n && self.container_types@[i as int].available()
                    && self.container_types@[i as int].spec_volume() >= t,
            decreases (n - i) + (if found { 0int } else { 1int }),
        {
            let ct = &self.container_types[i];
            let available = match ct.quantity {
                Some(q) => q > 0,
                None => true,
            };
            proof {
                crate::entities::lemma_volume_bound(ct.lx, ct.ly, ct.lz);
            }
            if available && ct.volume() >= total {
                found = true;
            } else {
                i = i + 1;
            }
        }
        let mut chosen: usize = i;
        if !found {
            let mut k: usize = n;
            while !found && k > 0
                invariant
                    n == self.container_types@.len(),
                    0 <= k <= n,
                    forall|j: int|
                        0 <= j < n ==> !(#[trigger] self.container_types@[j].available()
                            && self.container_types@[j].spec_volume() >= t),
                    forall|j: int| k < j < n ==> !(#[trigger] self.container_types@[j]).available(),
                    !found && k < n ==> !self.container_types@[k as int].available(),
                    found ==> k < n && self.container_types@[k as int].available(),
                decreases k + (if found { 0int } else { 1int }),
            {
                k = k - 1;
                let available = match self.container_types[k].quantity {
                    Some(q) => q > 0,
                    None => true,
                };
                if available {
                    found = true;
                }
            }
            chosen = k;
        }
        if !found {
            assert forall|j: int| 0 <= j < n implies !(#[trigger] self.container_types@[j]).available() by {
                if j > 0 {
                    assert(!self.container_types@[j].available());
                }
            }
            return false;
        }
        assert(selects(self.container_types@, t, chosen as int));
        let ghost before = self.container_types@;
        let quantity = match self.container_types[chosen].quantity {
            Some(q) => Some(q - 1),
            None => None,
        };
        self.container_types[chosen].quantity = quantity;
        assert(self.container_types@ =~= before.update(chosen as int, taken(before[chosen as int])));
        let ct = &self.container_types[chosen];
        self.container = Container {
            container_type: ContainerType {
                id: ct.id.clone(),
                lx: ct.lx,
                ly: ct.ly,
                lz: ct.lz,
                payload: ct.payload,
                quantity: ct.quantity,
            },
            boxes: Vec::new(),
            volume_rate: Ratio { num: 0, den: 1 },
            weight_rate: None,
        };
        true
    }

    /// Fills containers round by round until every box is packed, no
    /// container type has stock left, or a round places no box: the
    /// containers and the boxes left over are those of `packing`, one
    /// container per round, each of the type selected (less the unit taken)
    /// holding the boxes the search placed in it. Every box
    /// comes out once, in a container or among the unpacked ones; the boxes
    /// of each container meet all constraints against one another. Boxes are
    /// left over only when every type had bounded stock and all of it went
    /// into containers, or when an empty container of some type takes none
    /// of them.
    pub fn run(self) -> (out: Output)
        requires
            self.wf(),
        ensures
            packed_ids(out.containers@).len() + out.unpacked_boxes@.len() == self.pending().len(),
            packed_ids(out.containers@).to_multiset().add(ids(out.unpacked_boxes@).to_multiset())
                == ids(self.pending()).to_multiset(),
            forall|i: int|
                0 <= i < out.containers@.len() ==> container_ok(
                    #[trigger] out.containers@[i],
                    self.ratio(),
                ),
            out.box_types@ == self.box_types(),
            forall|k: int|
                0 <= k < out.containers@.len() ==> all_from_input(
                    (#[trigger] out.containers@[k]).boxes@,
                    self.pending(),
                ),
            all_from_input(out.unpacked_boxes@, self.pending()),
            forall|k: int|
                0 <= k < out.containers@.len() ==> {
                    let c = #[trigger] out.containers@[k];
                    &&& c.volume_rate.num <= c.volume_rate.den
                    &&& all_have_extent(self.pending()) ==> 0 < c.volume_rate.num
                    &&& c.weight_rate is Some <==> c.container_type.payload is Some
                    &&& c.weight_rate is Some ==> c.weight_rate.unwrap().num
                        <= c.weight_rate.unwrap().den
                    &&& c.weight_rate is Some && all_weigh(self.pending()) ==> 0
                        < c.weight_rate.unwrap().num
                },
            ({
                let res = packing(self.catalog(), self.ratio(), self.pending(), Seq::empty());
                &&& out.containers@.len() == res.0.len()
                &&& forall|k: int|
                    0 <= k < res.0.len() ==> (#[trigger] out.containers@[k]).boxes@ == res.0[k].1
                        && copy_of(out.containers@[k].container_type, res.0[k].0)
                &&& out.unpacked_boxes@ == res.1
            }),
            out.unpacked_boxes@.len() > 0 ==> {
                ||| (forall|j: int|
                    0 <= j < self.catalog().len() ==> (#[trigger] self.catalog()[j]).quantity is Some)
                    && out.containers@.len() >= stock(self.catalog())
                ||| exists|c: ContainerType, j: int|
                    0 <= j < self.catalog().len() && #[trigger] same_shape(c, self.catalog()[j])
                        && forall|k: int|
                        0 <= k < out.unpacked_boxes@.len() ==> places_nowhere(
                            c,
                            self.ratio(),
                            #[trigger] out.unpacked_boxes@[k],
                        )
            },
    {
        let mut this = self;
        let ghost cat0 = this.container_types@;
        let ghost start = ids(this.unpacked_boxes@).to_multiset();
        let ghost ratio = this.support_rate;
        let ghost box_types = this.output.box_types@;
        let ghost pending0 = this.unpacked_boxes@;
        let ghost result = packing(cat0, ratio, pending0, Seq::empty());
        let ghost mut rounds: Seq<(ContainerType, Seq<Box>)> = Seq::empty();
        assert forall|m: int| 0 <= m < pending0.len() implies from_input(
            #[trigger] pending0[m],
            pending0,
        ) by {
            assert(same_box(pending0[m], pending0[m]));
        }
        assert(packed_ids(this.output.containers@) =~= Seq::empty());
        while this.unpacked_boxes.len() > 0
            invariant_except_break
                stock(this.container_types@) + this.output.containers@.len() >= stock(cat0),
                packing(this.container_types@, ratio, this.unpacked_boxes@, rounds) == result,
            invariant
                forall|k: int|
                    0 <= k < this.output.containers@.len() ==> all_from_input(
                        (#[trigger] this.output.containers@[k]).boxes@,
                        pending0,
                    ),
                all_from_input(this.unpacked_boxes@, pending0),
                rounds.len() == this.output.containers@.len(),
                forall|k: int|
                    0 <= k < rounds.len() ==> (#[trigger] this.output.containers@[k]).boxes@
                        == rounds[k].1 && copy_of(this.output.containers@[k].container_type, rounds[k].0),
                this.support_rate == ratio,
                ratio.is_fraction(),
                this.output.box_types@ == box_types,
                packed_ids(this.output.containers@).to_multiset().add(
                    ids(this.unpacked_boxes@).to_multiset(),
                ) == start,
                forall|i: int|
                    0 <= i < this.output.containers@.len() ==> container_ok(
                        #[trigger] this.output.containers@[i],
                        ratio,
                    ),
                this.container_types@.len() == cat0.len(),
                forall|j: int|
                    0 <= j < cat0.len() ==> same_shape(#[trigger] this.container_types@[j], cat0[j])
                        && (this.container_types@[j].quantity is None <==> cat0[j].quantity is None),
            ensures
                result == (rounds, this.unpacked_boxes@),
                this.unpacked_boxes@.len() > 0 ==> {
                    ||| (forall|j: int| 0 <= j < cat0.len() ==> (#[trigger] cat0[j]).quantity is Some)
                    && this.output.containers@.len() >= stock(cat0)
                    ||| exists|c: ContainerType, j: int|
                    0 <= j < cat0.len() && #[trigger] same_shape(c, cat0[j]) && forall|k: int|
                        0 <= k < this.unpacked_boxes@.len() ==> places_nowhere(
                            c,
                            ratio,
                            #[trigger] this.unpacked_boxes@[k],
                        )
                },
            decreases this.unpacked_boxes@.len(),
        {
            let ghost cat = this.container_types@;
            let ghost pending_r = this.unpacked_boxes@;
            if !this.generate_container() {
                proof {
                    assert forall|i: int| !selects(cat, total_volume(pending_r), i) by {
                        if 0 <= i < cat.len() {
                            assert(!cat[i].available());
                        }
                    }
                    assert(!can_select(cat, pending_r));
                    lemma_stock_empty(cat);
                    assert forall|j: int| 0 <= j < cat0.len() implies (#[trigger] cat0[j]).quantity is Some by {
                        assert(!cat[j].available());
                    }
                }
                break;
            }
            let ghost i: int = choose|i: int|
                selects(cat, total_volume(pending_r), i) && this.container_types@ == cat.update(
                    i,
                    taken(cat[i]),
                ) && copy_of(this.container.container_type, taken(cat[i]));
            let ghost cat_i = cat[i];
            let ghost fill_r = fill(cat_i, ratio, Seq::empty(), Seq::empty(), pending_r);
            proof {
                assert(pending_r.len() > 0);
                lemma_stock_taken(cat, i);
                assert(same_shape(this.container.container_type, cat0[i]));
                assert forall|j: int| 0 <= j < cat0.len() implies same_shape(
                    #[trigger] this.container_types@[j],
                    cat0[j],
                ) && (this.container_types@[j].quantity is None <==> cat0[j].quantity is None) by {
                    assert(same_shape(cat[j], cat0[j]));
                }
                assert(can_select(cat, pending_r));
                lemma_selection_unique(cat, total_volume(pending_r), selection(cat, pending_r), i);
            }
            this.packed_boxes = Vec::new();
            let mut boxes_to_try: Vec<Box> = Vec::new();
            std::mem::swap(&mut boxes_to_try, &mut this.unpacked_boxes);
            let ghost round_start = ids(boxes_to_try@).to_multiset();
            let ghost n = boxes_to_try@.len();
            let ghost ct = this.container.container_type;
            assert(this.packed_boxes@ =~= Seq::empty());
            assert(ids(this.packed_boxes@) =~= Seq::empty());
            assert(ids(this.unpacked_boxes@) =~= Seq::empty());
            while boxes_to_try.len() > 0
                invariant
                    this.support_rate == ratio,
                    ratio.is_fraction(),
                    this.output.box_types@ == box_types,
                    this.container.container_type == ct,
                    forall|k: int|
                        0 <= k < this.output.containers@.len() ==> all_from_input(
                            (#[trigger] this.output.containers@[k]).boxes@,
                            pending0,
                        ),
                    all_from_input(this.unpacked_boxes@, pending0),
                    all_from_input(this.packed_boxes@, pending0),
                    all_from_input(boxes_to_try@, pending0),
                    same_shape(ct, cat_i),
                    cat_i == cat[i],
                    0 <= i < cat.len(),
                    this.container_types@ == cat.update(i, taken(cat[i])),
                    rounds.len() == this.output.containers@.len(),
                    forall|k: int|
                        0 <= k < rounds.len() ==> (#[trigger] this.output.containers@[k]).boxes@
                            == rounds[k].1 && copy_of(
                            this.output.containers@[k].container_type,
                            rounds[k].0,
                        ),
                    fill(cat_i, ratio, this.packed_boxes@, this.unpacked_boxes@, boxes_to_try@) == fill(
                        cat_i,
                        ratio,
                        Seq::empty(),
                        Seq::empty(),
                        pending_r,
                    ),
                    this.container_types@.len() == cat0.len(),
                    forall|j: int|
                        0 <= j < cat0.len() ==> same_shape(#[trigger] this.container_types@[j], cat0[j])
                            && (this.container_types@[j].quantity is None <==> cat0[j].quantity is None),
                    stock(this.container_types@) + this.output.containers@.len() + 1 >= stock(cat0),
                    exists|j: int| 0 <= j < cat0.len() && #[trigger] same_shape(ct, cat0[j]),
                    this.packed_boxes@.len() == 0 ==> forall|k: int|
                        0 <= k < this.unpacked_boxes@.len() ==> places_nowhere(
                            ct,
                            ratio,
                            #[trigger] this.unpacked_boxes@[k],
                        ),
                    packed_ids(this.output.containers@).to_multiset().add(round_start) == start,
                    forall|i: int|
                        0 <= i < this.output.containers@.len() ==> container_ok(
                            #[trigger] this.output.containers@[i],
                            ratio,
                        ),
                    mutually_feasible(ct, this.packed_boxes@, ratio),
                    all_dims_match(this.packed_boxes@),
                    ids(this.packed_boxes@).to_multiset().add(
                        ids(this.unpacked_boxes@).to_multiset(),
                    ).add(ids(boxes_to_try@).to_multiset()) == round_start,
                    this.packed_boxes@.len() + this.unpacked_boxes@.len() + boxes_to_try@.len()
                        == n,
                decreases boxes_to_try@.len(),
            {
                let ghost before = boxes_to_try@;
                let ghost placed_before = this.packed_boxes@;
                let ghost left_before = this.unpacked_boxes@;
                let mut item = boxes_to_try.remove(0);
                let ghost item0 = item;
                assert(before.drop_first() =~= boxes_to_try@);
                assert(from_input(item0, pending0)) by {
                    assert(before[0] == item0);
                }
                assert(all_from_input(boxes_to_try@, pending0)) by {
                    assert forall|m: int| 0 <= m < boxes_to_try@.len() implies from_input(
                        #[trigger] boxes_to_try@[m],
                        pending0,
                    ) by {
                        assert(boxes_to_try@[m] == before[m + 1]);
                    }
                }
                proof {
                    lemma_ids_remove(before, 0);
                    assert(ids(before).contains(item.id@)) by {
                        assert(ids(before)[0] == item.id@);
                    }
                    lemma_corners_fit(ct, this.packed_boxes@, ratio);
                }
                let found = try_pack(&this.container, &this.packed_boxes, this.support_rate, &mut item);
                proof {
                    let j = choose|j: int| 0 <= j < pending0.len() && same_box(#[trigger] pending0[j], item0);
                    assert(same_box(pending0[j], item));
                    lemma_from_input_push(placed_before, item, pending0);
                    lemma_from_input_push(left_before, item, pending0);
                    lemma_search_shape(ct, cat_i, placed_before, ratio, item0, found, item);
                    lemma_search_result(cat_i, placed_before, ratio, item0, found, item);
                }
                if found {
                    proof {
                        lemma_push_feasible(ct, this.packed_boxes@, ratio, item);
                        lemma_ids_push(this.packed_boxes@, item);
                    }
                    this.packed_boxes.push(item);
                } else {
                    proof {
                        lemma_ids_push(this.unpacked_boxes@, item);
                        if this.packed_boxes@.len() == 0 {
                            assert(this.packed_boxes@ =~= Seq::empty());
                        }
                    }
                    let ghost prev = this.unpacked_boxes@;
                    this.unpacked_boxes.push(item);
                    assert(this.unpacked_boxes@ == prev.push(item));
                }
                assert(ids(this.packed_boxes@).to_multiset().add(
                    ids(this.unpacked_boxes@).to_multiset(),
                ).add(ids(boxes_to_try@).to_multiset()) =~= round_start);
                assert(fill(cat_i, ratio, placed_before, left_before, before) == fill(
                    cat_i,
                    ratio,
                    this.packed_boxes@,
                    this.unpacked_boxes@,
                    boxes_to_try@,
                ));
            }
            assert(ids(boxes_to_try@).to_multiset() =~= Multiset::empty());
            proof {
                assert(fill(cat_i, ratio, this.packed_boxes@, this.unpacked_boxes@, boxes_to_try@) == (
                    this.packed_boxes@,
                    this.unpacked_boxes@,
                ));
                lemma_fill_len(cat_i, ratio, Seq::empty(), Seq::empty(), pending_r);
                assert(fill_r == (this.packed_boxes@, this.unpacked_boxes@));
            }
            if this.packed_boxes.len() == 0 {
                assert(ids(this.packed_boxes@).to_multiset() =~= Multiset::empty());
                assert(ids(this.unpacked_boxes@).to_multiset() =~= round_start);
                break;
            }
            let mut boxes: Vec<Box> = Vec::new();
            std::mem::swap(&mut boxes, &mut this.packed_boxes);
            proof {
                lemma_feasible_volume(ct, boxes@, ratio);
            }
            let volume_rate = Ratio {
                num: volume_of_boxes(&boxes),
                den: this.container.container_type.volume(),
            };
            let weight_rate = match this.container.container_type.payload {
                Some(p) => Some(Ratio { num: weight_of_boxes(boxes.as_slice()), den: p as u128 }),
                None => None,
            };
            let mut finished = empty_container();
            std::mem::swap(&mut finished, &mut this.container);
            finished.boxes = boxes;
            finished.volume_rate = volume_rate;
            finished.weight_rate = weight_rate;
            let ghost cs = this.output.containers@;
            proof {
                lemma_packed_ids_push(cs, finished);
            }
            let ghost round_boxes = finished.boxes@;
            let ghost rounds_before = rounds;
            this.output.containers.push(finished);
            assert(this.output.containers@ == cs.push(finished));
            proof {
                assert forall|k: int| 0 <= k < this.output.containers@.len() implies all_from_input(
                    (#[trigger] this.output.containers@[k]).boxes@,
                    pending0,
                ) by {
                    if k < cs.len() {
                        assert(this.output.containers@[k] == cs[k]);
                    }
                }
                assert(round_boxes == fill_r.0);
                assert(this.unpacked_boxes@ == fill_r.1);
                assert(selection(cat, pending_r) == i);
                assert(can_select(cat, pending_r));
                rounds = rounds.push((taken(cat_i), round_boxes));
                assert(packing(cat, ratio, pending_r, rounds_before) == packing(
                    this.container_types@,
                    ratio,
                    this.unpacked_boxes@,
                    rounds,
                ));
            }
            assert(packed_ids(this.output.containers@).to_multiset().add(
                ids(this.unpacked_boxes@).to_multiset(),
            ) =~= start);
        }
        proof {
            let ms = packed_ids(this.output.containers@).to_multiset();
            let mu = ids(this.unpacked_boxes@).to_multiset();
            assert(ms.len() == packed_ids(this.output.containers@).len());
            assert(mu.len() == this.unpacked_boxes@.len());
            assert(start.len() == self.unpacked_boxes@.len());
            assert(ms.add(mu).len() == ms.len() + mu.len());
        }
        proof {
            assert forall|k: int| 0 <= k < this.output.containers@.len() implies {
                let c = #[trigger] this.output.containers@[k];
                &&& c.volume_rate.num <= c.volume_rate.den
                &&& all_have_extent(pending0) ==> 0 < c.volume_rate.num
                &&& c.weight_rate is Some <==> c.container_type.payload is Some
                &&& c.weight_rate is Some ==> c.weight_rate.unwrap().num <= c.weight_rate.unwrap().den
                &&& c.weight_rate is Some && all_weigh(pending0) ==> 0 < c.weight_rate.unwrap().num
            } by {
                let c = this.output.containers@[k];
                lemma_rates_in_range(c, ratio);
                assert(all_from_input(c.boxes@, pending0));
                if all_have_extent(pending0) {
                    assert forall|m: int| 0 <= m < c.boxes@.len() implies has_extent(#[trigger] c.boxes@[m]) by {
                        assert(from_input(c.boxes@[m], pending0));
                        let j = choose|j: int| 0 <= j < pending0.len() && same_box(#[trigger] pending0[j], c.boxes@[m]);
                        assert(has_extent(pending0[j]));
                    }
                }
                if all_weigh(pending0) {
                    assert forall|m: int| 0 <= m < c.boxes@.len() implies (#[trigger] c.boxes@[m]).spec_weight() > 0 by {
                        assert(from_input(c.boxes@[m], pending0));
                        let j = choose|j: int| 0 <= j < pending0.len() && same_box(#[trigger] pending0[j], c.boxes@[m]);
                        assert(pending0[j].spec_weight() > 0);
                    }
                }
            }
        }
        let mut output = this.output;
        output.unpacked_boxes = this.unpacked_boxes;
        output
    }
}

} // verus!
