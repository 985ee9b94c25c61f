use vstd::prelude::*;

verus! {

/// How a box's three extents are laid onto the container's axes.
#[derive(Debug, Clone, Copy, PartialEq, Eq, Structural)]
pub enum Orient {
    /// length along X, width along Y, height along Z
    XYZ,
    /// width along X, length along Y, height along Z
    YXZ,
    /// length along X, height along Y, width along Z
    XZY,
    /// height along X, length along Y, width along Z
    ZXY,
    /// width along X, height along Y, length along Z
    YZX,
    /// height along X, width along Y, length along Z
    ZYX,
}

/// A catalog entry for boxes: extents and the orientations it may take.
#[derive(Debug, Clone)]
pub struct BoxType {
    pub id: String,
    pub lx: u32,
    pub ly: u32,
    pub lz: u32,
    pub orients: Vec<Orient>,
}

/// The orientations a box type takes when none are listed: the two flat ones.
pub fn default_orients() -> (r: Vec<Orient>)
    ensures
        r@ == seq![Orient::XYZ, Orient::YXZ],
{
    let r = vec![Orient::XYZ, Orient::YXZ];
    assert(r@ =~= seq![Orient::XYZ, Orient::YXZ]);
    r
}

pub open spec fn volume_of(lx: u32, ly: u32, lz: u32) -> int {
    lx as int * ly as int * lz as int
}

impl BoxType {
    pub open spec fn spec_volume(&self) -> int {
        volume_of(self.lx, self.ly, self.lz)
    }

    /// Product of the three extents.
    pub fn volume(&self) -> (r: u128)
        ensures
            r as int == self.spec_volume(),
    {
        proof {
            lemma_volume_bound(self.lx, self.ly, self.lz);
        }
        self.lx as u128 * self.ly as u128 * self.lz as u128
    }
}

pub proof fn lemma_volume_bound(lx: u32, ly: u32, lz: u32)
    ensures
        0 <= volume_of(lx, ly, lz) <= 0x1_0000_0000_0000_0000_0000_0000int,
        lx as int * ly as int <= 0x1_0000_0000_0000_0000int,
{
    assert(0 <= lx as int * ly as int <= 0x1_0000_0000_0000_0000int) by (nonlinear_arith)
        requires lx <= 0xffff_ffffu32, ly <= 0xffff_ffffu32;
    assert(0 <= volume_of(lx, ly, lz) <= 0x1_0000_0000_0000_0000_0000_0000int) by (nonlinear_arith)
        requires lx <= 0xffff_ffffu32, ly <= 0xffff_ffffu32, lz <= 0xffff_ffffu32,
            0 <= lx as int * ly as int <= 0x1_0000_0000_0000_0000int;
}


/// Box types are the same when their identities are.
impl PartialEq for BoxType {
    fn eq(&self, other: &Self) -> (r: bool)
        ensures
            r == (self.id@ == other.id@),
    {
        self.id == other.id
    }
}

impl vstd::std_specs::cmp::PartialEqSpecImpl for BoxType {
    open spec fn obeys_eq_spec() -> bool {
        true
    }

    open spec fn eq_spec(&self, other: &BoxType) -> bool {
        self.id@ == other.id@
    }
}

/// The extents `(x, y, z)` that a box type takes on the container's axes
/// under orientation `o`.
pub open spec fn oriented(bt: BoxType, o: Orient) -> (u32, u32, u32) {
    match o {
        Orient::XYZ => (bt.lx, bt.ly, bt.lz),
        Orient::YXZ => (bt.ly, bt.lx, bt.lz),
        Orient::XZY => (bt.lx, bt.lz, bt.ly),
        Orient::ZXY => (bt.lz, bt.lx, bt.ly),
        Orient::YZX => (bt.ly, bt.lz, bt.lx),
        Orient::ZYX => (bt.lz, bt.ly, bt.lx),
    }
}

/// A box to ship. Its position is unset until a placement is found; `lx`,
/// `ly`, `lz` are its extents under the current orientation. Weights are
/// integers in the unit the payload of container types is given in.
#[derive(Debug, Clone)]
pub struct Box {
    pub id: String,
    pub type_id: String,
    pub weight: Option<u64>,
    pub x: Option<u32>,
    pub y: Option<u32>,
    pub z: Option<u32>,
    pub orient: Orient,
    pub lx: u32,
    pub ly: u32,
    pub lz: u32,
    pub box_type: BoxType,
}

impl Box {
    pub open spec fn is_placed(&self) -> bool {
        self.x is Some && self.y is Some && self.z is Some
    }

    pub open spec fn px(&self) -> int {
        self.x.unwrap() as int
    }

    pub open spec fn py(&self) -> int {
        self.y.unwrap() as int
    }

    pub open spec fn pz(&self) -> int {
        self.z.unwrap() as int
    }

    pub open spec fn spec_volume(&self) -> int {
        self.box_type.spec_volume()
    }

    pub open spec fn spec_weight(&self) -> int {
        match self.weight {
            Some(w) => w as int,
            None => 0,
        }
    }

    /// The volume of the box's type.
    pub fn volume(&self) -> (r: u128)
        ensures
            r as int == self.spec_volume(),
    {
        self.box_type.volume()
    }

    /// Turns the box to `orient`, setting its extents from its type.
    pub fn set_orient(&mut self, orient: Orient)
        ensures
            final(self).orient == orient,
            (final(self).lx, final(self).ly, final(self).lz) == oriented(old(self).box_type, orient),
            final(self).id == old(self).id,
            final(self).type_id == old(self).type_id,
            final(self).weight == old(self).weight,
            final(self).x == old(self).x,
            final(self).y == old(self).y,
            final(self).z == old(self).z,
            final(self).box_type == old(self).box_type,
    {
        self.orient = orient;
        match orient {
            Orient::XYZ => {
                self.lx = self.box_type.lx;
                self.ly = self.box_type.ly;
                self.lz = self.box_type.lz;
            },
            Orient::YXZ => {
                self.lx = self.box_type.ly;
                self.ly = self.box_type.lx;
                self.lz = self.box_type.lz;
            },
            Orient::XZY => {
                self.lx = self.box_type.lx;
                self.ly = self.box_type.lz;
                self.lz = self.box_type.ly;
            },
            Orient::ZXY => {
                self.lx = self.box_type.lz;
                self.ly = self.box_type.lx;
                self.lz = self.box_type.ly;
            },
            Orient::YZX => {
                self.lx = self.box_type.ly;
                self.ly = self.box_type.lz;
                self.lz = self.box_type.lx;
            },
            Orient::ZYX => {
                self.lx = self.box_type.lz;
                self.ly = self.box_type.ly;
                self.lz = self.box_type.lx;
            },
        }
    }
}

/// Boxes are the same when their identities are.
impl PartialEq for Box {
    fn eq(&self, other: &Self) -> (r: bool)
        ensures
            r == (self.id@ == other.id@),
    {
        self.id == other.id
    }
}

impl vstd::std_specs::cmp::PartialEqSpecImpl for Box {
    open spec fn obeys_eq_spec() -> bool {
        true
    }

    open spec fn eq_spec(&self, other: &Box) -> bool {
        self.id@ == other.id@
    }
}

/// A catalog entry for containers. `payload` is the weight it may carry
/// (none: unlimited); `quantity` the units left in stock (none: unlimited).
#[derive(Debug, Clone)]
pub struct ContainerType {
    pub id: String,
    pub lx: u32,
    pub ly: u32,
    pub lz: u32,
    pub payload: Option<u64>,
    pub quantity: Option<u32>,
}

impl ContainerType {
    pub open spec fn spec_volume(&self) -> int {
        volume_of(self.lx, self.ly, self.lz)
    }

    /// Whether a unit of this type can still be taken from stock.
    pub open spec fn available(&self) -> bool {
        match self.quantity {
            Some(q) => q > 0,
            None => true,
        }
    }

    /// Product of the three extents.
    pub fn volume(&self) -> (r: u128)
        ensures
            r as int == self.spec_volume(),
    {
        proof {
            lemma_volume_bound(self.lx, self.ly, self.lz);
        }
        self.lx as u128 * self.ly as u128 * self.lz as u128
    }
}

/// A fraction `num / den`.
#[derive(Debug, Clone, Copy, PartialEq, Eq, Structural)]
pub struct Ratio {
    pub num: u128,
    pub den: u128,
}

impl Ratio {
    /// A support ratio: a fraction between zero and one.
    pub open spec fn is_fraction(&self) -> bool {
        0 < self.den && self.num <= self.den && self.den <= u32::MAX
    }
}

/// A container that was filled in one round, with the share of its volume
/// and (where its payload is bounded) of its payload that the boxes use.
#[derive(Debug, Clone)]
pub struct Container {
    pub container_type: ContainerType,
    pub boxes: Vec<Box>,
    pub volume_rate: Ratio,
    pub weight_rate: Option<Ratio>,
}

/// What the packing works on: the catalogs, the boxes to ship and the share
/// of a raised box's base that must rest on boxes below it.
#[derive(Debug, Clone)]
pub struct Input {
    pub box_types: Vec<BoxType>,
    pub container_types: Vec<ContainerType>,
    pub boxes: Vec<Box>,
    pub support_rate: Ratio,
}

/// The support ratio used when the input gives none: seven tenths.
pub fn default_support_rate() -> (r: Ratio)
    ensures
        r == (Ratio { num: 7, den: 10 }),
{
    Ratio { num: 7, den: 10 }
}

/// What the packing yields: the box catalog, the filled containers in the
/// order they were filled, and the boxes that found no place.
#[derive(Debug, Clone)]
pub struct Output {
    pub box_types: Vec<BoxType>,
    pub containers: Vec<Container>,
    pub unpacked_boxes: Vec<Box>,
}

} // verus!
