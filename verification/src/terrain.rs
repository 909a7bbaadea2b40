//! What a cell is made of.

use vstd::prelude::*;

verus! {

/// The glyph of a wall or of ice in the tile set.
pub const WALL_TILE: u8 = 11 + 13 * 16;

/// The glyph of a potion.
pub const POTION_GLYPH: u8 = 13 + 10 * 16;

/// The glyph of a bomb.
pub const BOMB_GLYPH: u8 = 15;

#[derive(Debug, Clone, Copy, PartialEq, Eq, Structural)]
pub enum Terrain {
    Wall,
    Floor,
    Ice,
    StairsDown,
    StairsUp,
}

impl Default for Terrain {
    /// A cell that nothing is known of is a wall.
    fn default() -> (r: Self)
        ensures
            r == Terrain::Wall,
    {
        Terrain::Wall
    }
}

impl Terrain {
    /// Nothing sees through walls and ice.
    pub open spec fn spec_blocks_sight(self) -> bool {
        self == Terrain::Wall || self == Terrain::Ice
    }

    /// Whether nothing sees through this.
    #[verifier::when_used_as_spec(spec_blocks_sight)]
    pub fn blocks_sight(self) -> (r: bool)
        ensures
            r == self.spec_blocks_sight(),
    {
        match self {
            Terrain::Wall | Terrain::Ice => true,
            _ => false,
        }
    }

    /// Nobody steps onto walls and ice.
    pub open spec fn spec_blocks_step(self) -> bool {
        self == Terrain::Wall || self == Terrain::Ice
    }

    /// Whether nobody steps onto this.
    #[verifier::when_used_as_spec(spec_blocks_step)]
    pub fn blocks_step(self) -> (r: bool)
        ensures
            r == self.spec_blocks_step(),
    {
        match self {
            Terrain::Wall | Terrain::Ice => true,
            _ => false,
        }
    }

    /// A route may lead over anything but a wall.
    pub open spec fn spec_blocks_route(self) -> bool {
        self == Terrain::Wall
    }

    /// Whether no route leads over this.
    #[verifier::when_used_as_spec(spec_blocks_route)]
    pub fn blocks_route(self) -> (r: bool)
        ensures
            r == self.spec_blocks_route(),
    {
        match self {
            Terrain::Wall => true,
            _ => false,
        }
    }
}

} // verus!
