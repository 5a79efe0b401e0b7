use vstd::prelude::*;

verus! {

/// A material tag for one voxel; `Air` is the empty value.
#[derive(Clone, Copy, Debug, PartialEq, Eq, Structural, Hash)]
pub enum Block {
    Air,
    Dirt,
    Stone,
}

impl Default for Block {
    fn default() -> (r: Block)
        ensures
            r == Block::Air,
    {
        Block::Air
    }
}

impl Block {
    /// Whether the block is solid matter (anything but `Air`).
    pub open spec fn solid(self) -> bool {
        self != Block::Air
    }
}

} // verus!
