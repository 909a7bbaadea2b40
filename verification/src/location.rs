//! Grid coordinates: a cell of the dungeon, its map key and its neighbours.

use vstd::prelude::*;

verus! {

/// A cell of the dungeon. `z` is the floor; a more negative `z` is deeper.
#[derive(Debug, Clone, Copy, PartialEq, Eq, Hash, Structural)]
pub struct Location {
    pub x: i32,
    pub y: i32,
    pub z: i32,
}

impl Default for Location {
    fn default() -> (r: Self)
        ensures
            r == (Location { x: 0, y: 0, z: 0 }),
    {
        Location { x: 0, y: 0, z: 0 }
    }
}

/// Whether `v` is a coordinate that a cell can have.
pub open spec fn is_coordinate(v: int) -> bool {
    i32::MIN <= v <= i32::MAX
}

/// The sequence of the one value that `o` holds, or of none.
pub open spec fn present(o: Option<Location>) -> Seq<Location> {
    match o {
        Some(l) => seq![l],
        None => Seq::empty(),
    }
}

impl Location {
    /// The number under which the maps of the world store this cell: the
    /// three coordinates, each shifted to be non-negative, as the digits of a
    /// number in base 2^32.
    pub open spec fn spec_key(self) -> u128 {
        ((self.x + 0x8000_0000) * 0x1_0000_0000_0000_0000 + (self.y + 0x8000_0000) * 0x1_0000_0000
            + (self.z + 0x8000_0000)) as u128
    }

    /// The number under which the maps of the world store this cell.
    #[verifier::when_used_as_spec(spec_key)]
    pub fn key(self) -> (k: u128)
        ensures
            k == self.spec_key(),
    {
        let a: u128 = (self.x as i64 + 0x8000_0000) as u128;
        let b: u128 = (self.y as i64 + 0x8000_0000) as u128;
        let c: u128 = (self.z as i64 + 0x8000_0000) as u128;
        a * 0x1_0000_0000_0000_0000 + b * 0x1_0000_0000 + c
    }

    /// Two cells with the same key are the same cell.
    pub proof fn lemma_key_injective(a: Location, b: Location)
        ensures
            a.key() == b.key() <==> a == b,
    {
    }

    /// The cell at offset `d` from this one, if its coordinates exist.
    pub open spec fn spec_checked_add(self, d: Location) -> Option<Location> {
        if is_coordinate(self.x + d.x) && is_coordinate(self.y + d.y) && is_coordinate(
            self.z + d.z,
        ) {
            Some(
                Location {
                    x: (self.x + d.x) as i32,
                    y: (self.y + d.y) as i32,
                    z: (self.z + d.z) as i32,
                },
            )
        } else {
            None
        }
    }

    /// Component-wise sum; `None` where a coordinate would leave the range
    /// of `i32`.
    #[verifier::when_used_as_spec(spec_checked_add)]
    pub fn checked_add(self, d: Location) -> (r: Option<Location>)
        ensures
            r == self.spec_checked_add(d),
    {
        let x: i64 = self.x as i64 + d.x as i64;
        let y: i64 = self.y as i64 + d.y as i64;
        let z: i64 = self.z as i64 + d.z as i64;
        if x < -0x8000_0000 || x > 0x7fff_ffff || y < -0x8000_0000 || y > 0x7fff_ffff || z
            < -0x8000_0000 || z > 0x7fff_ffff {
            None
        } else {
            Some(Location { x: x as i32, y: y as i32, z: z as i32 })
        }
    }

    /// The offset that leads from `d` to this cell, if its coordinates exist.
    pub open spec fn spec_checked_sub(self, d: Location) -> Option<Location> {
        if is_coordinate(self.x - d.x) && is_coordinate(self.y - d.y) && is_coordinate(
            self.z - d.z,
        ) {
            Some(
                Location {
                    x: (self.x - d.x) as i32,
                    y: (self.y - d.y) as i32,
                    z: (self.z - d.z) as i32,
                },
            )
        } else {
            None
        }
    }

    /// Component-wise difference; `None` where a coordinate would leave the
    /// range of `i32`.
    #[verifier::when_used_as_spec(spec_checked_sub)]
    pub fn checked_sub(self, d: Location) -> (r: Option<Location>)
        ensures
            r == self.spec_checked_sub(d),
    {
        let x: i64 = self.x as i64 - d.x as i64;
        let y: i64 = self.y as i64 - d.y as i64;
        let z: i64 = self.z as i64 - d.z as i64;
        if x < -0x8000_0000 || x > 0x7fff_ffff || y < -0x8000_0000 || y > 0x7fff_ffff || z
            < -0x8000_0000 || z > 0x7fff_ffff {
            None
        } else {
            Some(Location { x: x as i32, y: y as i32, z: z as i32 })
        }
    }

    /// The unit step in direction `dir`: 0 is +x, 1 is -x, 2 is +y, 3 is -y.
    pub open spec fn unit(dir: int) -> Location {
        if dir == 0 {
            Location { x: 1, y: 0, z: 0 }
        } else if dir == 1 {
            Location { x: -1i32, y: 0, z: 0 }
        } else if dir == 2 {
            Location { x: 0, y: 1, z: 0 }
        } else {
            Location { x: 0, y: -1i32, z: 0 }
        }
    }

    /// The orthogonal neighbour in direction `dir` on the same floor, if it
    /// exists.
    pub open spec fn spec_neighbor(self, dir: int) -> Option<Location> {
        self.spec_checked_add(Self::unit(dir))
    }

    /// The orthogonal neighbour in direction `dir` on the same floor, if it
    /// exists: 0 is +x, 1 is -x, 2 is +y, 3 is -y.
    pub fn neighbor(self, dir: u8) -> (r: Option<Location>)
        requires
            dir < 4,
        ensures
            r == self.spec_neighbor(dir as int),
    {
        let d = if dir == 0 {
            Location { x: 1, y: 0, z: 0 }
        } else if dir == 1 {
            Location { x: -1, y: 0, z: 0 }
        } else if dir == 2 {
            Location { x: 0, y: 1, z: 0 }
        } else {
            Location { x: 0, y: -1, z: 0 }
        };
        self.checked_add(d)
    }

    /// Two cells of one floor that share an edge.
    pub open spec fn adjacent(self, other: Location) -> bool {
        &&& self.z == other.z
        &&& {
            ||| (self.y == other.y && (self.x - other.x == 1 || other.x - self.x == 1))
            ||| (self.x == other.x && (self.y - other.y == 1 || other.y - self.y == 1))
        }
    }

    /// The neighbours that exist, in the order +x, -x, +y, -y.
    pub open spec fn spec_neighbors(self) -> Seq<Location> {
        present(self.spec_neighbor(0)) + present(self.spec_neighbor(1)) + present(
            self.spec_neighbor(2),
        ) + present(self.spec_neighbor(3))
    }

    /// The orthogonal neighbours of this cell on its floor. A cell at the
    /// edge of the coordinate range has fewer than four.
    pub fn neighbors(&self) -> (r: Vec<Location>)
        ensures
            r@ == self.spec_neighbors(),
    {
        let mut out: Vec<Location> = Vec::new();
        let mut dir: u8 = 0;
        while dir < 4
            invariant
                dir <= 4,
                dir == 0 ==> out@ == Seq::<Location>::empty(),
                dir == 1 ==> out@ == present(self.spec_neighbor(0)),
                dir == 2 ==> out@ == present(self.spec_neighbor(0)) + present(
                    self.spec_neighbor(1),
                ),
                dir == 3 ==> out@ == present(self.spec_neighbor(0)) + present(
                    self.spec_neighbor(1),
                ) + present(self.spec_neighbor(2)),
                dir == 4 ==> out@ == self.spec_neighbors(),
            decreases 4 - dir,
        {
            let ghost before = out@;
            match self.neighbor(dir) {
                Some(l) => {
                    out.push(l);
                    assert(out@ =~= before + present(self.spec_neighbor(dir as int)));
                },
                None => {
                    assert(out@ =~= before + present(self.spec_neighbor(dir as int)));
                },
            }
            assert(Seq::<Location>::empty() + present(self.spec_neighbor(0)) =~= present(
                self.spec_neighbor(0),
            ));
            dir = dir + 1;
        }
        out
    }

    /// The cells that share an edge with `other` are its neighbours, and the
    /// other way round.
    pub proof fn lemma_adjacent_is_neighbor(self, other: Location)
        ensures
            self.adjacent(other) <==> exists|d: int|
                0 <= d < 4 && #[trigger] self.spec_neighbor(d) == Some(other),
            self.adjacent(other) == other.adjacent(self),
    {
        if self.adjacent(other) {
            if self.y == other.y && other.x - self.x == 1 {
                assert(self.spec_neighbor(0) == Some(other));
            } else if self.y == other.y {
                assert(self.spec_neighbor(1) == Some(other));
            } else if other.y - self.y == 1 {
                assert(self.spec_neighbor(2) == Some(other));
            } else {
                assert(self.spec_neighbor(3) == Some(other));
            }
        }
    }
}

} // verus!
