use vstd::prelude::*;
use crate::constraint::{all_placed, feasible, Constraint};
use crate::entities::{oriented, Box, Container, ContainerType, Orient, Ratio};
use crate::geometry::dims_match;

verus! {

/// A candidate anchor `(x, y, z)` for a box's corner nearest the origin.
pub type Point = (u32, u32, u32);

/// The order candidates are tried in: by height, then depth, then length.
pub open spec fn point_lt(a: Point, b: Point) -> bool {
    a.2 < b.2 || (a.2 == b.2 && (a.1 < b.1 || (a.1 == b.1 && a.0 < b.0)))
}

pub open spec fn strictly_sorted(s: Seq<Point>) -> bool {
    forall|i: int, j: int| 0 <= i < j < s.len() ==> point_lt(#[trigger] s[i], #[trigger] s[j])
}

/// `p` lies right of, behind or on top of the placed box `b`, at its corner.
pub open spec fn extreme_of(b: Box, p: Point) -> bool {
    ||| (p.0 == b.px() + b.lx && p.1 == b.py() && p.2 == b.pz())
    ||| (p.0 == b.px() && p.1 == b.py() + b.ly && p.2 == b.pz())
    ||| (p.0 == b.px() && p.1 == b.py() && p.2 == b.pz() + b.lz)
}

/// `p` is the origin or an extreme point of one of the first `n` boxes.
pub open spec fn is_candidate(packed: Seq<Box>, n: int, p: Point) -> bool {
    p == (0u32, 0u32, 0u32) || exists|j: int| 0 <= j < n && extreme_of(#[trigger] packed[j], p)
}

/// `cs` holds each candidate point of `packed` once, in search order.
pub open spec fn is_candidate_list(cs: Seq<Point>, packed: Seq<Box>) -> bool {
    &&& strictly_sorted(cs)
    &&& forall|p: Point| cs.contains(p) <==> is_candidate(packed, packed.len() as int, p)
}

/// The corners of every box lie within the range of a coordinate.
pub open spec fn corners_fit(packed: Seq<Box>) -> bool {
    forall|j: int|
        0 <= j < packed.len() ==> {
            &&& (#[trigger] packed[j]).is_placed()
            &&& packed[j].px() + packed[j].lx <= u32::MAX
            &&& packed[j].py() + packed[j].ly <= u32::MAX
            &&& packed[j].pz() + packed[j].lz <= u32::MAX
        }
}

fn lt_point(a: Point, b: Point) -> (r: bool)
    ensures
        r == point_lt(a, b),
{
    a.2 < b.2 || (a.2 == b.2 && (a.1 < b.1 || (a.1 == b.1 && a.0 < b.0)))
}

/// Adds `p` to a sorted list of distinct points, keeping it so.
fn insert_point(v: &mut Vec<Point>, p: Point)
    requires
        strictly_sorted(old(v)@),
    ensures
        strictly_sorted(final(v)@),
        forall|q: Point| final(v)@.contains(q) <==> (old(v)@.contains(q) || q == p),
{
    let mut j: usize = 0;
    while j < v.len() && lt_point(v[j], p)
        invariant
            0 <= j <= v@.len(),
            v@ == old(v)@,
            forall|k: int| 0 <= k < j ==> point_lt(#[trigger] v@[k], p),
        decreases v@.len() - j,
    {
        j = j + 1;
    }
    if j < v.len() && v[j].0 == p.0 && v[j].1 == p.1 && v[j].2 == p.2 {
        return;
    }
    let ghost s = v@;
    assert(s == old(v)@);
    v.insert(j, p);
    assert(v@ == s.insert(j as int, p));
    assert forall|q: Point| v@.contains(q) <==> (s.contains(q) || q == p) by {
        if v@.contains(q) {
            let k = choose|k: int| 0 <= k < v@.len() && v@[k] == q;
            if k < j {
                assert(s[k] == q);
            } else if k > j {
                assert(s[k - 1] == q);
            }
        }
        if s.contains(q) {
            let k = choose|k: int| 0 <= k < s.len() && s[k] == q;
            if k < j {
                assert(v@[k] == q);
            } else {
                assert(v@[k + 1] == q);
            }
        }
        if q == p {
            assert(v@[j as int] == q);
        }
    }
    assert forall|a: int, b: int| 0 <= a < b < v@.len() implies point_lt(
        #[trigger] v@[a],
        #[trigger] v@[b],
    ) by {
        if b < j {
        } else if a > j {
            assert(v@[a] == s[a - 1] && v@[b] == s[b - 1]);
        } else if a == j {
            assert(point_lt(p, s[j as int]));
            assert(v@[b] == s[b - 1]);
            if b - 1 > j {
                assert(point_lt(s[j as int], s[b - 1]));
            }
        } else if b == j {
        } else {
            assert(v@[b] == s[b - 1]);
            assert(point_lt(s[a], p));
            assert(point_lt(p, s[j as int]));
            if b - 1 > j {
                assert(point_lt(s[j as int], s[b - 1]));
            }
        }
    }
}

/// The candidate anchors for the next box among `packed`: the origin and,
/// for each packed box, the points right of, behind and on top of it;
/// each once, sorted by height, then depth, then length.
pub fn candidate_points(packed: &[Box]) -> (r: Vec<Point>)
    requires
        corners_fit(packed@),
    ensures
        is_candidate_list(r@, packed@),
{
    let mut r: Vec<Point> = Vec::new();
    insert_point(&mut r, (0, 0, 0));
    let n = packed.len();
    let mut i: usize = 0;
    while i < n
        invariant
            n == packed@.len(),
            0 <= i <= n,
            corners_fit(packed@),
            strictly_sorted(r@),
            forall|p: Point| r@.contains(p) <==> is_candidate(packed@, i as int, p),
        decreases n - i,
    {
        let b = &packed[i];
        assert(b.is_placed());
        let x = b.x.unwrap();
        let y = b.y.unwrap();
        let z = b.z.unwrap();
        let right = (x + b.lx, y, z);
        let behind = (x, y + b.ly, z);
        let above = (x, y, z + b.lz);
        insert_point(&mut r, right);
        insert_point(&mut r, behind);
        insert_point(&mut r, above);
        assert forall|p: Point| r@.contains(p) <==> is_candidate(packed@, i + 1, p) by {
            if is_candidate(packed@, i + 1, p) && p != (0u32, 0u32, 0u32) {
                let j = choose|j: int| 0 <= j < i + 1 && extreme_of(#[trigger] packed@[j], p);
                if j < i {
                    assert(is_candidate(packed@, i as int, p));
                }
            }
            if is_candidate(packed@, i as int, p) && p != (0u32, 0u32, 0u32) {
                let j = choose|j: int| 0 <= j < i && extreme_of(#[trigger] packed@[j], p);
                assert(0 <= j < i + 1 && extreme_of(packed@[j], p));
            }
            if p == right || p == behind || p == above {
                assert(extreme_of(packed@[i as int], p));
            }
        }
        i = i + 1;
    }
    r
}

/// `item` turned to `o` with its corner at `p`.
pub open spec fn trial(item: Box, o: Orient, p: Point) -> Box {
    Box {
        orient: o,
        lx: oriented(item.box_type, o).0,
        ly: oriented(item.box_type, o).1,
        lz: oriented(item.box_type, o).2,
        x: Some(p.0),
        y: Some(p.1),
        z: Some(p.2),
        ..item
    }
}

pub open spec fn fits_at(
    ct: ContainerType,
    packed: Seq<Box>,
    ratio: Ratio,
    item: Box,
    o: Orient,
    p: Point,
) -> bool {
    feasible(ct, packed, ratio, trial(item, o, p))
}

/// Orientation `oi` and candidate `ci` are the first feasible pair, trying
/// every candidate of one orientation before the next orientation.
pub open spec fn first_fit(
    ct: ContainerType,
    packed: Seq<Box>,
    ratio: Ratio,
    item: Box,
    cs: Seq<Point>,
    oi: int,
    ci: int,
) -> bool {
    let os = item.box_type.orients@;
    &&& 0 <= oi < os.len()
    &&& 0 <= ci < cs.len()
    &&& fits_at(ct, packed, ratio, item, os[oi], cs[ci])
    &&& forall|a: int, c: int|
        0 <= a < os.len() && 0 <= c < cs.len() && (a < oi || (a == oi && c < ci)) ==> !fits_at(
            ct,
            packed,
            ratio,
            item,
            #[trigger] os[a],
            #[trigger] cs[c],
        )
}

pub open spec fn fits_nowhere(
    ct: ContainerType,
    packed: Seq<Box>,
    ratio: Ratio,
    item: Box,
    cs: Seq<Point>,
) -> bool {
    let os = item.box_type.orients@;
    forall|a: int, c: int|
        0 <= a < os.len() && 0 <= c < cs.len() ==> !fits_at(
            ct,
            packed,
            ratio,
            item,
            #[trigger] os[a],
            #[trigger] cs[c],
        )
}

/// The outcome of searching a place for `item` among `packed`: on success
/// `placed` is `item` at the first feasible orientation and candidate;
/// otherwise no pair is feasible and `placed` is `item` unchanged.
pub open spec fn search_outcome(
    ct: ContainerType,
    packed: Seq<Box>,
    ratio: Ratio,
    item: Box,
    found: bool,
    placed: Box,
) -> bool {
    exists|cs: Seq<Point>|
        #![trigger is_candidate_list(cs, packed)]
        is_candidate_list(cs, packed) && if found {
            exists|oi: int, ci: int|
                #![trigger first_fit(ct, packed, ratio, item, cs, oi, ci)]
                first_fit(ct, packed, ratio, item, cs, oi, ci) && placed == trial(
                    item,
                    item.box_type.orients@[oi],
                    cs[ci],
                )
        } else {
            fits_nowhere(ct, packed, ratio, item, cs) && placed == item
        }
}

/// Searches a place for `item` among the boxes `packed` of `container`.
pub fn try_pack(container: &Container, packed: &Vec<Box>, ratio: Ratio, item: &mut Box) -> (r:
    bool)
    requires
        corners_fit(packed@),
        ratio.is_fraction(),
    ensures
        search_outcome(container.container_type, packed@, ratio, *old(item), r, *final(item)),
        r ==> dims_match(*final(item)),
        r ==> final(item).is_placed() && feasible(
            container.container_type,
            packed@,
            ratio,
            *final(item),
        ),
        !r ==> *final(item) == *old(item),
        final(item).id == old(item).id,
        final(item).weight == old(item).weight,
        final(item).type_id == old(item).type_id,
        final(item).box_type == old(item).box_type,
{
    let ghost ct = container.container_type;
    let ghost orig = *item;
    assert(orig == *old(item));
    let cands = candidate_points(packed.as_slice());
    let constraint = Constraint::new(container, packed.as_slice(), ratio);
    assert(all_placed(packed@)) by {
        assert forall|j: int| 0 <= j < packed@.len() implies (#[trigger] packed@[j]).is_placed() by {
            assert(corners_fit(packed@));
        }
    }
    let saved_x = item.x;
    let saved_y = item.y;
    let saved_z = item.z;
    let saved_orient = item.orient;
    let saved_lx = item.lx;
    let saved_ly = item.ly;
    let saved_lz = item.lz;
    let n_o = item.box_type.orients.len();
    let n_c = cands.len();
    let mut oi: usize = 0;
    while oi < n_o
        invariant
            n_o == orig.box_type.orients@.len(),
            n_c == cands@.len(),
            0 <= oi <= n_o,
            is_candidate_list(cands@, packed@),
            all_placed(packed@),
            ratio.is_fraction(),
            constraint.container_type() == ct,
            constraint.packed() == packed@,
            constraint.ratio() == ratio,
            orig == *old(item),
            ct == container.container_type,
            item.id == orig.id,
            item.type_id == orig.type_id,
            item.weight == orig.weight,
            item.box_type == orig.box_type,
            forall|a: int, c: int|
                0 <= a < oi && 0 <= c < n_c ==> !fits_at(
                    ct,
                    packed@,
                    ratio,
                    orig,
                    #[trigger] orig.box_type.orients@[a],
                    #[trigger] cands@[c],
                ),
        decreases n_o - oi,
    {
        let o = item.box_type.orients[oi];
        item.set_orient(o);
        let mut ci: usize = 0;
        while ci < n_c
            invariant
                n_o == orig.box_type.orients@.len(),
                n_c == cands@.len(),
                0 <= oi < n_o,
                0 <= ci <= n_c,
                o == orig.box_type.orients@[oi as int],
                is_candidate_list(cands@, packed@),
                all_placed(packed@),
                ratio.is_fraction(),
                constraint.container_type() == ct,
                constraint.packed() == packed@,
                constraint.ratio() == ratio,
                orig == *old(item),
                ct == container.container_type,
                item.id == orig.id,
                item.type_id == orig.type_id,
                item.weight == orig.weight,
                item.box_type == orig.box_type,
                item.orient == o,
                (item.lx, item.ly, item.lz) == oriented(orig.box_type, o),
                forall|a: int, c: int|
                    0 <= a < oi && 0 <= c < n_c ==> !fits_at(
                        ct,
                        packed@,
                        ratio,
                        orig,
                        #[trigger] orig.box_type.orients@[a],
                        #[trigger] cands@[c],
                    ),
                forall|c: int|
                    0 <= c < ci ==> !fits_at(ct, packed@, ratio, orig, o, #[trigger] cands@[c]),
            decreases n_c - ci,
        {
            let (x, y, z) = cands[ci];
            item.x = Some(x);
            item.y = Some(y);
            item.z = Some(z);
            assert(*item == trial(orig, o, cands@[ci as int]));
            if constraint.check_constraints(item) {
                assert(feasible(ct, packed@, ratio, *item));
                assert(first_fit(ct, packed@, ratio, orig, cands@, oi as int, ci as int));
                assert(*item == trial(orig, orig.box_type.orients@[oi as int], cands@[ci as int]));
                assert(is_candidate_list(cands@, packed@));
                return true;
            }
            ci = ci + 1;
        }
        oi = oi + 1;
    }
    item.x = saved_x;
    item.y = saved_y;
    item.z = saved_z;
    item.orient = saved_orient;
    item.lx = saved_lx;
    item.ly = saved_ly;
    item.lz = saved_lz;
    assert(*item == orig);
    assert(fits_nowhere(ct, packed@, ratio, orig, cands@));
    false
}


proof fn lemma_point_order(a: Point, b: Point, c: Point)
    ensures
        !point_lt(a, a),
        point_lt(a, b) && point_lt(b, c) ==> point_lt(a, c),
        a != b ==> point_lt(a, b) || point_lt(b, a),
{
}

/// Two lists that each hold the same points once, in search order, are the
/// same list.
pub proof fn lemma_sorted_unique(a: Seq<Point>, b: Seq<Point>)
    requires
        strictly_sorted(a),
        strictly_sorted(b),
        forall|p: Point| a.contains(p) <==> b.contains(p),
    ensures
        a == b,
    decreases a.len(),
{
    if a.len() == 0 {
        if b.len() > 0 {
            assert(b.contains(b[0]));
        }
        assert(a =~= b);
    } else {
        assert(a.contains(a[0]));
        let j = choose|j: int| 0 <= j < b.len() && b[j] == a[0];
        assert(b.contains(b[0]));
        let i = choose|i: int| 0 <= i < a.len() && a[i] == b[0];
        if j > 0 {
            assert(point_lt(b[0], b[j]));
            if i > 0 {
                assert(point_lt(a[0], a[i]));
                lemma_point_order(a[0], b[0], a[0]);
            } else {
                lemma_point_order(a[0], a[0], a[0]);
            }
        }
        assert(a[0] == b[0]);
        let a1 = a.subrange(1, a.len() as int);
        let b1 = b.subrange(1, b.len() as int);
        assert forall|p: Point| a1.contains(p) <==> b1.contains(p) by {
            if a1.contains(p) {
                let k = choose|k: int| 0 <= k < a1.len() && a1[k] == p;
                assert(a[k + 1] == p && point_lt(a[0], a[k + 1]));
                assert(b.contains(p));
                let m = choose|m: int| 0 <= m < b.len() && b[m] == p;
                if m == 0 {
                    lemma_point_order(p, p, p);
                }
                assert(b1[m - 1] == p);
            }
            if b1.contains(p) {
                let k = choose|k: int| 0 <= k < b1.len() && b1[k] == p;
                assert(b[k + 1] == p && point_lt(b[0], b[k + 1]));
                assert(a.contains(p));
                let m = choose|m: int| 0 <= m < a.len() && a[m] == p;
                if m == 0 {
                    lemma_point_order(p, p, p);
                }
                assert(a1[m - 1] == p);
            }
        }
        lemma_sorted_unique(a1, b1);
        assert(a =~= b) by {
            assert forall|k: int| 0 <= k < a.len() implies a[k] == b[k] by {
                if k > 0 {
                    assert(a[k] == a1[k - 1] && b[k] == b1[k - 1]);
                }
            }
        }
    }
}

/// The placement search has one outcome for given inputs: whether a place
/// is found, and where the box then stands, follow from the container, the
/// packed boxes, the support ratio and the box alone.
pub proof fn lemma_search_unique(
    ct: ContainerType,
    packed: Seq<Box>,
    ratio: Ratio,
    item: Box,
    found1: bool,
    placed1: Box,
    found2: bool,
    placed2: Box,
)
    requires
        search_outcome(ct, packed, ratio, item, found1, placed1),
        search_outcome(ct, packed, ratio, item, found2, placed2),
    ensures
        found1 == found2,
        placed1 == placed2,
{
    let cs1 = choose|cs: Seq<Point>|
        #![trigger is_candidate_list(cs, packed)]
        is_candidate_list(cs, packed) && if found1 {
            exists|oi: int, ci: int|
                #![trigger first_fit(ct, packed, ratio, item, cs, oi, ci)]
                first_fit(ct, packed, ratio, item, cs, oi, ci) && placed1 == trial(
                    item,
                    item.box_type.orients@[oi],
                    cs[ci],
                )
        } else {
            fits_nowhere(ct, packed, ratio, item, cs) && placed1 == item
        };
    let cs2 = choose|cs: Seq<Point>|
        #![trigger is_candidate_list(cs, packed)]
        is_candidate_list(cs, packed) && if found2 {
            exists|oi: int, ci: int|
                #![trigger first_fit(ct, packed, ratio, item, cs, oi, ci)]
                first_fit(ct, packed, ratio, item, cs, oi, ci) && placed2 == trial(
                    item,
                    item.box_type.orients@[oi],
                    cs[ci],
                )
        } else {
            fits_nowhere(ct, packed, ratio, item, cs) && placed2 == item
        };
    lemma_sorted_unique(cs1, cs2);
    let os = item.box_type.orients@;
    if found1 {
        let (o1, c1) = choose|oi: int, ci: int|
            #![trigger first_fit(ct, packed, ratio, item, cs1, oi, ci)]
            first_fit(ct, packed, ratio, item, cs1, oi, ci) && placed1 == trial(
                item,
                os[oi],
                cs1[ci],
            );
        if found2 {
            let (o2, c2) = choose|oi: int, ci: int|
                #![trigger first_fit(ct, packed, ratio, item, cs2, oi, ci)]
                first_fit(ct, packed, ratio, item, cs2, oi, ci) && placed2 == trial(
                    item,
                    os[oi],
                    cs2[ci],
                );
            if o1 < o2 || (o1 == o2 && c1 < c2) {
                assert(!fits_at(ct, packed, ratio, item, os[o1], cs2[c1]));
            } else if o2 < o1 || (o1 == o2 && c2 < c1) {
                assert(!fits_at(ct, packed, ratio, item, os[o2], cs1[c2]));
            }
        } else {
            assert(!fits_at(ct, packed, ratio, item, os[o1], cs2[c1]));
        }
    } else if found2 {
        let (o2, c2) = choose|oi: int, ci: int|
            #![trigger first_fit(ct, packed, ratio, item, cs2, oi, ci)]
            first_fit(ct, packed, ratio, item, cs2, oi, ci) && placed2 == trial(
                item,
                os[oi],
                cs2[ci],
            );
        assert(!fits_at(ct, packed, ratio, item, os[o2], cs1[c2]));
    }
}

} // verus!
