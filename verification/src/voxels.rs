//! The cells of the voxel world.

use vstd::prelude::*;
use vstd::string::StringExecFns;
use crate::vec3::{Vec3, vec3_text};

verus! {

/// The side of the block on which a torch is placed: a torch on the east
/// side of its block is facing east.
#[derive(Clone, Copy, Debug, PartialEq, Eq, Structural)]
pub enum Facing {
    North,
    East,
    West,
    South,
}

#[derive(Clone, Copy, Debug, PartialEq, Eq, Structural)]
pub struct AirVoxel;

impl AirVoxel {
    pub fn voxel(self) -> (v: Voxel)
        ensures
            v == Voxel::Air(self),
    {
        Voxel::Air(self)
    }
}

#[derive(Clone, Copy, Debug, PartialEq, Eq, Structural)]
pub struct StoneVoxel;

impl StoneVoxel {
    pub fn voxel(self) -> (v: Voxel)
        ensures
            v == Voxel::Stone(self),
    {
        Voxel::Stone(self)
    }
}

/// A torch.  Without a facing it stands on the block below it.
#[derive(Clone, Copy, Debug, PartialEq, Eq, Structural)]
pub struct TorchVoxel {
    pub facing: Option<Facing>,
}

impl TorchVoxel {
    pub fn voxel(self) -> (v: Voxel)
        ensures
            v == Voxel::Torch(self),
    {
        Voxel::Torch(self)
    }

    pub fn set_facing(self, facing: Facing) -> (t: TorchVoxel)
        ensures
            t.facing == Some(facing),
    {
        let mut torch = self;
        torch.facing = Some(facing);
        torch
    }

    pub fn facing_north(self) -> (t: TorchVoxel)
        ensures
            t.facing == Some(Facing::North),
    {
        self.set_facing(Facing::North)
    }

    pub fn facing_east(self) -> (t: TorchVoxel)
        ensures
            t.facing == Some(Facing::East),
    {
        self.set_facing(Facing::East)
    }

    pub fn facing_west(self) -> (t: TorchVoxel)
        ensures
            t.facing == Some(Facing::West),
    {
        self.set_facing(Facing::West)
    }

    pub fn facing_south(self) -> (t: TorchVoxel)
        ensures
            t.facing == Some(Facing::South),
    {
        self.set_facing(Facing::South)
    }
}

#[derive(Clone, Copy, Debug, PartialEq, Eq, Structural)]
pub struct DustVoxel;

impl DustVoxel {
    pub fn voxel(self) -> (v: Voxel)
        ensures
            v == Voxel::Dust(self),
    {
        Voxel::Dust(self)
    }
}

#[derive(Clone, Copy, Debug, PartialEq, Eq, Structural)]
pub enum Voxel {
    Air(AirVoxel),
    Stone(StoneVoxel),
    Torch(TorchVoxel),
    Dust(DustVoxel),
}

/// The name of a kind of voxel, followed by a blank.
pub open spec fn kind_text(voxel: Voxel) -> Seq<char> {
    match voxel {
        Voxel::Air(_) => "air "@,
        Voxel::Stone(_) => "stone "@,
        Voxel::Torch(_) => "torch "@,
        Voxel::Dust(_) => "dust "@,
    }
}

impl Voxel {
    pub fn air() -> (v: AirVoxel) {
        AirVoxel
    }

    pub fn stone() -> (v: StoneVoxel) {
        StoneVoxel
    }

    pub fn torch() -> (v: TorchVoxel)
        ensures
            v.facing is None,
    {
        TorchVoxel { facing: None }
    }

    pub fn dust() -> (v: DustVoxel) {
        DustVoxel
    }

    /// The diagnostic name of this voxel at `vec3`, such as `torch (0, 1, 0)`.
    pub fn get_name(&self, vec3: Vec3) -> (name: String)
        ensures
            name@ == kind_text(*self) + vec3_text(vec3),
    {
        let mut name = String::new();
        match self {
            Voxel::Air(_) => {
                name.append("air ");
            },
            Voxel::Stone(_) => {
                name.append("stone ");
            },
            Voxel::Torch(_) => {
                name.append("torch ");
            },
            Voxel::Dust(_) => {
                name.append("dust ");
            },
        }
        assert(name@ =~= kind_text(*self));
        let text = vec3.to_string();
        name.append(text.as_str());
        name
    }

    #[must_use]
    pub fn is_air(&self) -> (b: bool)
        ensures
            b == (*self is Air),
    {
        matches!(self, Voxel::Air(_))
    }

    #[must_use]
    pub fn is_stone(&self) -> (b: bool)
        ensures
            b == (*self is Stone),
    {
        matches!(self, Voxel::Stone(_))
    }

    #[must_use]
    pub fn is_torch(&self) -> (b: bool)
        ensures
            b == (*self is Torch),
    {
        matches!(self, Voxel::Torch(_))
    }

    #[must_use]
    pub fn is_dust(&self) -> (b: bool)
        ensures
            b == (*self is Dust),
    {
        matches!(self, Voxel::Dust(_))
    }
}

} // verus!
