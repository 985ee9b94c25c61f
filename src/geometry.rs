use vstd::prelude::*;
use vstd::set_lib::{lemma_len_subset, lemma_set_disjoint_lens};
use crate::constraint::{overlaps, within_bounds};
use crate::entities::{oriented, Box, ContainerType};
use crate::algorithm::total_volume;

verus! {

broadcast use vstd::set::group_set_axioms;

/// The unit cells `(i, j, k)` with `x0 <= i < x1`, `y0 <= j < y1`, `z0 <= k < z1`.
pub open spec fn brick(x0: int, x1: int, y0: int, y1: int, z0: int, z1: int) -> Set<(int, int, int)> {
    Set::new(|c: (int, int, int)| x0 <= c.0 < x1 && y0 <= c.1 < y1 && z0 <= c.2 < z1)
}

/// The cells a placed box takes up.
pub open spec fn cells(b: Box) -> Set<(int, int, int)> {
    brick(b.px(), b.px() + b.lx, b.py(), b.py() + b.ly, b.pz(), b.pz() + b.lz)
}

/// The cells the boxes of `s` take up together.
pub open spec fn occupied(s: Seq<Box>) -> Set<(int, int, int)>
    decreases s.len(),
{
    if s.len() == 0 {
        Set::empty()
    } else {
        occupied(s.drop_last()) + cells(s.last())
    }
}

/// The box's extents are those of its type under its orientation.
pub open spec fn dims_match(b: Box) -> bool {
    (b.lx, b.ly, b.lz) == oriented(b.box_type, b.orient)
}

proof fn lemma_row_len(x0: int, x1: int, y: int, z: int)
    requires
        x0 <= x1,
    ensures
        brick(x0, x1, y, y + 1, z, z + 1).finite(),
        brick(x0, x1, y, y + 1, z, z + 1).len() == x1 - x0,
    decreases x1 - x0,
{
    if x0 == x1 {
        assert(brick(x0, x1, y, y + 1, z, z + 1) =~= Set::empty());
    } else {
        lemma_row_len(x0, x1 - 1, y, z);
        assert(brick(x0, x1, y, y + 1, z, z + 1) =~= brick(x0, x1 - 1, y, y + 1, z, z + 1).insert(
            (x1 - 1, y, z),
        ));
    }
}

proof fn lemma_slab_len(x0: int, x1: int, y0: int, y1: int, z: int)
    requires
        x0 <= x1,
        y0 <= y1,
    ensures
        brick(x0, x1, y0, y1, z, z + 1).finite(),
        brick(x0, x1, y0, y1, z, z + 1).len() == (x1 - x0) * (y1 - y0),
    decreases y1 - y0,
{
    if y0 == y1 {
        assert(brick(x0, x1, y0, y1, z, z + 1) =~= Set::empty());
    } else {
        let a = brick(x0, x1, y0, y1 - 1, z, z + 1);
        let b = brick(x0, x1, y1 - 1, y1, z, z + 1);
        lemma_slab_len(x0, x1, y0, y1 - 1, z);
        lemma_row_len(x0, x1, y1 - 1, z);
        assert(brick(x0, x1, y0, y1, z, z + 1) =~= a + b);
        assert(a.disjoint(b));
        lemma_set_disjoint_lens(a, b);
        assert((x1 - x0) * (y1 - 1 - y0) + (x1 - x0) == (x1 - x0) * (y1 - y0)) by (nonlinear_arith);
    }
}

/// A brick of `l * w * h` cells.
pub proof fn lemma_brick_len(x0: int, x1: int, y0: int, y1: int, z0: int, z1: int)
    requires
        x0 <= x1,
        y0 <= y1,
        z0 <= z1,
    ensures
        brick(x0, x1, y0, y1, z0, z1).finite(),
        brick(x0, x1, y0, y1, z0, z1).len() == (x1 - x0) * (y1 - y0) * (z1 - z0),
    decreases z1 - z0,
{
    if z0 == z1 {
        assert(brick(x0, x1, y0, y1, z0, z1) =~= Set::empty());
    } else {
        let a = brick(x0, x1, y0, y1, z0, z1 - 1);
        let b = brick(x0, x1, y0, y1, z1 - 1, z1);
        lemma_brick_len(x0, x1, y0, y1, z0, z1 - 1);
        lemma_slab_len(x0, x1, y0, y1, z1 - 1);
        assert(brick(x0, x1, y0, y1, z0, z1) =~= a + b);
        assert(a.disjoint(b));
        lemma_set_disjoint_lens(a, b);
        let area = (x1 - x0) * (y1 - y0);
        assert(area * (z1 - 1 - z0) + area == area * (z1 - z0)) by (nonlinear_arith);
    }
}

proof fn lemma_dims_volume(b: Box)
    requires
        dims_match(b),
    ensures
        b.lx as int * b.ly as int * b.lz as int == b.spec_volume(),
{
    let (x, y, z) = (b.box_type.lx as int, b.box_type.ly as int, b.box_type.lz as int);
    assert(x * y * z == y * x * z && x * y * z == x * z * y && x * y * z == z * x * y && x * y * z
        == y * z * x && x * y * z == z * y * x) by (nonlinear_arith);
}

proof fn lemma_occupied_member(s: Seq<Box>, c: (int, int, int))
    requires
        occupied(s).contains(c),
    ensures
        exists|j: int| 0 <= j < s.len() && cells(#[trigger] s[j]).contains(c),
    decreases s.len(),
{
    if !cells(s.last()).contains(c) {
        lemma_occupied_member(s.drop_last(), c);
        let j = choose|j: int| 0 <= j < s.len() - 1 && cells(#[trigger] s.drop_last()[j]).contains(c);
        assert(s[j] == s.drop_last()[j]);
    }
}

/// Placed boxes inside a container that pairwise share no volume take up
/// as many cells as their volumes add up to, all within the container.
pub proof fn lemma_occupied(ct: ContainerType, s: Seq<Box>)
    requires
        forall|i: int|
            0 <= i < s.len() ==> (#[trigger] s[i]).is_placed() && within_bounds(ct, s[i])
                && dims_match(s[i]),
        forall|i: int, j: int| 0 <= i < j < s.len() ==> !overlaps(#[trigger] s[i], #[trigger] s[j]),
    ensures
        occupied(s).finite(),
        occupied(s).len() == total_volume(s),
        occupied(s).subset_of(brick(0, ct.lx as int, 0, ct.ly as int, 0, ct.lz as int)),
    decreases s.len(),
{
    if s.len() > 0 {
        let t = s.drop_last();
        let b = s.last();
        assert forall|i: int, j: int| 0 <= i < j < t.len() implies !overlaps(
            #[trigger] t[i],
            #[trigger] t[j],
        ) by {
            assert(t[i] == s[i] && t[j] == s[j]);
        }
        assert forall|i: int| 0 <= i < t.len() implies (#[trigger] t[i]).is_placed() && within_bounds(
            ct,
            t[i],
        ) && dims_match(t[i]) by {
            assert(t[i] == s[i]);
        }
        lemma_occupied(ct, t);
        assert(b == s[s.len() - 1]);
        lemma_brick_len(b.px(), b.px() + b.lx, b.py(), b.py() + b.ly, b.pz(), b.pz() + b.lz);
        lemma_dims_volume(b);
        assert(occupied(t).disjoint(cells(b))) by {
            assert forall|c: (int, int, int)| occupied(t).contains(c) implies !cells(b).contains(c) by {
                lemma_occupied_member(t, c);
                let j = choose|j: int| 0 <= j < t.len() && cells(#[trigger] t[j]).contains(c);
                assert(t[j] == s[j]);
                assert(!overlaps(s[j], s[s.len() - 1]));
            }
        }
        lemma_set_disjoint_lens(occupied(t), cells(b));
    } else {
        assert(occupied(s) =~= Set::empty());
    }
}

/// Placed boxes inside a container that pairwise share no volume have a
/// summed volume no larger than the container's.
pub proof fn lemma_volume_within_container(ct: ContainerType, s: Seq<Box>)
    requires
        forall|i: int|
            0 <= i < s.len() ==> (#[trigger] s[i]).is_placed() && within_bounds(ct, s[i])
                && dims_match(s[i]),
        forall|i: int, j: int| 0 <= i < j < s.len() ==> !overlaps(#[trigger] s[i], #[trigger] s[j]),
    ensures
        total_volume(s) <= ct.spec_volume(),
{
    lemma_occupied(ct, s);
    lemma_brick_len(0, ct.lx as int, 0, ct.ly as int, 0, ct.lz as int);
    lemma_len_subset(occupied(s), brick(0, ct.lx as int, 0, ct.ly as int, 0, ct.lz as int));
}

} // verus!
