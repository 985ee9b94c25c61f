use vstd::prelude::*;
use crate::entities::{Box, Container, ContainerType, Ratio};

verus! {

pub open spec fn min_int(a: int, b: int) -> int {
    if a <= b { a } else { b }
}

pub open spec fn max_int(a: int, b: int) -> int {
    if a >= b { a } else { b }
}

/// The box lies inside the container, measured from the container's origin.
pub open spec fn within_bounds(ct: ContainerType, b: Box) -> bool {
    &&& b.px() + b.lx <= ct.lx
    &&& b.py() + b.ly <= ct.ly
    &&& b.pz() + b.lz <= ct.lz
}

/// The two boxes share volume: their half-open intervals meet on all three axes.
pub open spec fn overlaps(a: Box, b: Box) -> bool {
    &&& a.px() < b.px() + b.lx && b.px() < a.px() + a.lx
    &&& a.py() < b.py() + b.ly && b.py() < a.py() + a.ly
    &&& a.pz() < b.pz() + b.lz && b.pz() < a.pz() + a.lz
}

pub open spec fn overlaps_none(item: Box, packed: Seq<Box>) -> bool {
    forall|j: int| 0 <= j < packed.len() ==> !overlaps(item, #[trigger] packed[j])
}

/// The area of `item`'s base that rests on the top face of `s`.
pub open spec fn contact_area(item: Box, s: Box) -> int {
    let x1 = max_int(item.px(), s.px());
    let x2 = min_int(item.px() + item.lx, s.px() + s.lx);
    let y1 = max_int(item.py(), s.py());
    let y2 = min_int(item.py() + item.ly, s.py() + s.ly);
    if s.pz() + s.lz == item.pz() && x1 < x2 && y1 < y2 {
        (x2 - x1) * (y2 - y1)
    } else {
        0
    }
}

/// The area of `item`'s base that rests on the boxes of `s`, summed.
pub open spec fn support_area(item: Box, s: Seq<Box>) -> int
    decreases s.len(),
{
    if s.len() == 0 {
        0
    } else {
        support_area(item, s.drop_last()) + contact_area(item, s.last())
    }
}

/// A box on the floor is supported; a raised one needs at least `ratio` of
/// its base area to rest on boxes whose top is at its base height.
pub open spec fn supported(item: Box, packed: Seq<Box>, ratio: Ratio) -> bool {
    item.pz() == 0 || support_area(item, packed) * ratio.den >= ratio.num * (item.lx * item.ly)
}

pub open spec fn total_weight(s: Seq<Box>) -> int
    decreases s.len(),
{
    if s.len() == 0 {
        0
    } else {
        total_weight(s.drop_last()) + s.last().spec_weight()
    }
}

/// With a bounded payload, the boxes together with `item` weigh no more than it.
pub open spec fn within_payload(ct: ContainerType, packed: Seq<Box>, item: Box) -> bool {
    match ct.payload {
        Some(p) => total_weight(packed) + item.spec_weight() <= p,
        None => true,
    }
}

/// All four constraints hold for `item` among the boxes `packed`.
pub open spec fn feasible(ct: ContainerType, packed: Seq<Box>, ratio: Ratio, item: Box) -> bool {
    &&& within_bounds(ct, item)
    &&& overlaps_none(item, packed)
    &&& supported(item, packed, ratio)
    &&& within_payload(ct, packed, item)
}

pub open spec fn all_placed(s: Seq<Box>) -> bool {
    forall|j: int| 0 <= j < s.len() ==> (#[trigger] s[j]).is_placed()
}

proof fn lemma_mul_le(a: int, b: int, c: int, d: int)
    requires
        0 <= a <= c,
        0 <= b <= d,
    ensures
        0 <= a * b <= c * d,
{
    assert(0 <= a * b <= c * d) by (nonlinear_arith)
        requires 0 <= a <= c, 0 <= b <= d;
}

pub proof fn lemma_contact_area_bound(item: Box, s: Box)
    requires
        item.is_placed(),
        s.is_placed(),
    ensures
        0 <= contact_area(item, s) <= item.lx * item.ly,
        item.lx * item.ly < 0x1_0000_0000_0000_0000int,
{
    let x1 = max_int(item.px(), s.px());
    let x2 = min_int(item.px() + item.lx, s.px() + s.lx);
    let y1 = max_int(item.py(), s.py());
    let y2 = min_int(item.py() + item.ly, s.py() + s.ly);
    if x1 < x2 && y1 < y2 {
        lemma_mul_le(x2 - x1, y2 - y1, item.lx as int, item.ly as int);
    }
    lemma_mul_le(item.lx as int, item.ly as int, 0xffff_ffff, 0xffff_ffff);
}

/// The summed weight of `boxes`, a box without a weight counting as none.
pub fn weight_of_boxes(boxes: &[Box]) -> (r: u128)
    ensures
        r == total_weight(boxes@),
        r <= boxes@.len() * 0x1_0000_0000_0000_0000,
{
    let n = boxes.len();
    let mut total: u128 = 0;
    let mut i: usize = 0;
    while i < n
        invariant
            n == boxes@.len(),
            0 <= i <= n,
            total == total_weight(boxes@.subrange(0, i as int)),
            total <= i * 0x1_0000_0000_0000_0000,
        decreases n - i,
    {
        proof {
            let t = boxes@.subrange(0, i + 1);
            assert(t.drop_last() =~= boxes@.subrange(0, i as int));
        }
        let w = match boxes[i].weight {
            Some(w) => w,
            None => 0,
        };
        total = total + w as u128;
        i = i + 1;
    }
    assert(boxes@.subrange(0, n as int) =~= boxes@);
    total
}

/// Decides whether a box may be placed where it stands, in a container
/// holding `packed_boxes`.
pub struct Constraint<'a> {
    container: &'a Container,
    packed_boxes: &'a [Box],
    support_rate: Ratio,
}

impl<'a> Constraint<'a> {
    pub closed spec fn container_type(&self) -> ContainerType {
        self.container.container_type
    }

    pub closed spec fn packed(&self) -> Seq<Box> {
        self.packed_boxes@
    }

    pub closed spec fn ratio(&self) -> Ratio {
        self.support_rate
    }

    pub fn new(container: &'a Container, packed_boxes: &'a [Box], support_rate: Ratio) -> (r: Self)
        ensures
            r.container_type() == container.container_type,
            r.packed() == packed_boxes@,
            r.ratio() == support_rate,
    {
        Constraint { container, packed_boxes, support_rate }
    }

    /// The box does not reach past the container's walls.
    pub fn check_bound(&self, item: &Box) -> (r: bool)
        requires
            item.is_placed(),
        ensures
            r == within_bounds(self.container_type(), *item),
    {
        let x = item.x.unwrap() as u64;
        let y = item.y.unwrap() as u64;
        let z = item.z.unwrap() as u64;
        let ct = &self.container.container_type;
        x + item.lx as u64 <= ct.lx as u64 && y + item.ly as u64 <= ct.ly as u64 && z
            + item.lz as u64 <= ct.lz as u64
    }

    /// The box shares no volume with a packed box.
    pub fn check_overlap(&self, item: &Box) -> (r: bool)
        requires
            item.is_placed(),
            all_placed(self.packed()),
        ensures
            r == overlaps_none(*item, self.packed()),
    {
        let x = item.x.unwrap() as u64;
        let y = item.y.unwrap() as u64;
        let z = item.z.unwrap() as u64;
        let n = self.packed_boxes.len();
        let mut i: usize = 0;
        while i < n
            invariant
                n == self.packed().len(),
                0 <= i <= n,
                all_placed(self.packed()),
                item.is_placed(),
                x == item.px() && y == item.py() && z == item.pz(),
                forall|j: int| 0 <= j < i ==> !overlaps(*item, #[trigger] self.packed()[j]),
            decreases n - i,
        {
            let p = &self.packed_boxes[i];
            assert(p.is_placed());
            let px = p.x.unwrap() as u64;
            let py = p.y.unwrap() as u64;
            let pz = p.z.unwrap() as u64;
            let x_overlap = x < px + p.lx as u64 && px < x + item.lx as u64;
            let y_overlap = y < py + p.ly as u64 && py < y + item.ly as u64;
            let z_overlap = z < pz + p.lz as u64 && pz < z + item.lz as u64;
            if x_overlap && y_overlap && z_overlap {
                return false;
            }
            i = i + 1;
        }
        true
    }

    /// A raised box rests on enough of the packed boxes' top faces.
    pub fn check_support(&self, item: &Box) -> (r: bool)
        requires
            item.is_placed(),
            all_placed(self.packed()),
            self.ratio().is_fraction(),
        ensures
            r == supported(*item, self.packed(), self.ratio()),
    {
        let x = item.x.unwrap() as u64;
        let y = item.y.unwrap() as u64;
        let z = item.z.unwrap() as u64;
        if z == 0 {
            return true;
        }
        let n = self.packed_boxes.len();
        let mut area: u128 = 0;
        let mut i: usize = 0;
        while i < n
            invariant
                n == self.packed().len(),
                0 <= i <= n,
                all_placed(self.packed()),
                item.is_placed(),
                x == item.px() && y == item.py() && z == item.pz(),
                area == support_area(*item, self.packed().subrange(0, i as int)),
                area <= i * 0x1_0000_0000_0000_0000,
            decreases n - i,
        {
            let s = &self.packed_boxes[i];
            assert(s.is_placed());
            proof {
                let t = self.packed().subrange(0, i + 1);
                assert(t.drop_last() =~= self.packed().subrange(0, i as int));
                lemma_contact_area_bound(*item, *s);
            }
            let sx = s.x.unwrap() as u64;
            let sy = s.y.unwrap() as u64;
            let sz = s.z.unwrap() as u64;
            if sz + s.lz as u64 == z {
                let x1 = if x >= sx { x } else { sx };
                let y1 = if y >= sy { y } else { sy };
                let xe = x + item.lx as u64;
                let sxe = sx + s.lx as u64;
                let ye = y + item.ly as u64;
                let sye = sy + s.ly as u64;
                let x2 = if xe <= sxe { xe } else { sxe };
                let y2 = if ye <= sye { ye } else { sye };
                if x1 < x2 && y1 < y2 {
                    area = area + ((x2 - x1) as u128) * ((y2 - y1) as u128);
                }
            }
            i = i + 1;
        }
        assert(self.packed().subrange(0, n as int) =~= self.packed());
        proof {
            lemma_mul_le(item.lx as int, item.ly as int, 0xffff_ffff, 0xffff_ffff);
        }
        let base = item.lx as u128 * item.ly as u128;
        let num = self.support_rate.num;
        let den = self.support_rate.den;
        if area >= base {
            proof {
                lemma_mul_le(num as int, base as int, den as int, area as int);
            }
            true
        } else {
            proof {
                lemma_mul_le(area as int, den as int, 0xffff_ffff_ffff_ffff, 0xffff_ffff);
                lemma_mul_le(num as int, base as int, 0xffff_ffff, 0xffff_ffff_ffff_ffff);
            }
            area * den >= num * base
        }
    }

    /// The packed boxes and this one weigh no more than the payload, if any;
    /// a box without a weight counts as weighing nothing.
    pub fn check_weight(&self, item: &Box) -> (r: bool)
        ensures
            r == within_payload(self.container_type(), self.packed(), *item),
    {
        match self.container.container_type.payload {
            Some(payload) => {
                let n = self.packed_boxes.len();
                let total = weight_of_boxes(self.packed_boxes);
                assert(n < 0x1_0000_0000_0000_0000);
                let w = match item.weight {
                    Some(w) => w,
                    None => 0,
                };
                total + w as u128 <= payload as u128
            },
            None => true,
        }
    }

    /// All four checks, in order.
    pub fn check_constraints(&self, item: &Box) -> (r: bool)
        requires
            item.is_placed(),
            all_placed(self.packed()),
            self.ratio().is_fraction(),
        ensures
            r == feasible(self.container_type(), self.packed(), self.ratio(), *item),
    {
        self.check_bound(item) && self.check_overlap(item) && self.check_support(item)
            && self.check_weight(item)
    }
}

} // verus!
