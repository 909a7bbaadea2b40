//! Worlds made by hand: a bare world, and the means to furnish it cell by
//! cell without ever leaving it unfit for play.

use vstd::prelude::*;
use std::collections::HashMap;
use crate::creature::{Creature, CreatureID};
use crate::item::Item;
use crate::location::Location;
use crate::pathing::walkable;
use crate::prng::PCG32;
use crate::terrain::Terrain;
use crate::world::{GameWorld, WorldView, PLAYER_ID};

verus! {

/// The world of one cell: the player alone on a cell of floor, on the one
/// floor there is.
pub open spec fn bare_world(seed: u64) -> WorldView {
    WorldView {
        player_location: Location { x: 0, y: 0, z: 0 },
        next_creature_id: (PLAYER_ID + 1) as usize,
        creatures: seq![Creature::spec_new_player(PLAYER_ID)],
        cells: seq![Location { x: 0, y: 0, z: 0 }],
        occupancy: Map::empty().insert(Location { x: 0, y: 0, z: 0 }.key(), CreatureID(PLAYER_ID)),
        items: Map::empty(),
        terrain: Map::empty().insert(Location { x: 0, y: 0, z: 0 }.key(), Terrain::Floor),
        gen: PCG32::spec_new(seed),
        deepest_depth: 0,
    }
}

impl WorldView {
    /// Whether `l` may be made of `terrain`: nobody may be walled in.
    pub open spec fn may_be(self, l: Location, terrain: Terrain) -> bool {
        terrain == Terrain::Wall ==> !self.occupied(l)
    }

    /// Whether a creature may be put on `l`: the cell is free, no wall,
    /// and on one of the floors there are.
    pub open spec fn has_room(self, l: Location) -> bool {
        &&& !self.occupied(l)
        &&& walkable(self.terrain, l)
        &&& self.deepest_depth <= l.z <= 0
    }
}

impl GameWorld {
    /// The world of one cell.
    pub fn bare(seed: u64) -> (r: GameWorld)
        ensures
            r@ == bare_world(seed),
            r.wf(),
    {
        let start = Location { x: 0, y: 0, z: 0 };
        let mut out = GameWorld {
            player_location: start,
            next_creature_id: PLAYER_ID + 1,
            creature_list: Vec::new(),
            creature_cells: Vec::new(),
            creature_locations: HashMap::new(),
            item_locations: HashMap::new(),
            terrain: HashMap::new(),
            gen: PCG32::new(seed),
            deepest_depth: 0,
        };
        out.terrain.insert(start.key(), Terrain::Floor);
        let ghost empty = out@;
        proof {
            assert(empty.consistent());
            assert(empty.is_fresh(CreatureID(PLAYER_ID)));
            empty.lemma_joined(Creature::spec_new_player(PLAYER_ID), start);
        }
        out.join(Creature::new_player(PLAYER_ID), start);
        assert(out@ =~= bare_world(seed));
        out
    }

    /// Makes `l` be of `terrain`, if it may be. Says whether it did.
    pub fn put_terrain(&mut self, l: Location, terrain: Terrain) -> (done: bool)
        requires
            old(self).wf(),
        ensures
            done == old(self)@.may_be(l, terrain),
            final(self)@ == if done {
                old(self)@.with_terrain(l, terrain)
            } else {
                old(self)@
            },
            final(self).wf(),
    {
        let walled_in = match terrain {
            Terrain::Wall => self.occupant(l).is_some(),
            _ => false,
        };
        if walled_in {
            return false;
        }
        proof {
            self@.lemma_with_terrain(l, terrain);
        }
        self.set_terrain(l, terrain);
        true
    }

    /// Lays `item` on top of what lies on `l`.
    pub fn put_item(&mut self, l: Location, item: Item)
        requires
            old(self).wf(),
        ensures
            final(self)@ == old(self)@.with_items(l, old(self)@.items_at(l).push(item)),
            final(self).wf(),
    {
        proof {
            self@.lemma_frame(self@.with_items(l, self@.items_at(l).push(item)));
        }
        self.drop_item(l, item);
    }

    /// Puts a new kestrel on `l`, if there is room. The kestrel gets the
    /// next identifier, which is returned.
    pub fn put_kestrel(&mut self, l: Location) -> (r: Option<CreatureID>)
        requires
            old(self).wf(),
            old(self).next_creature_id < usize::MAX,
        ensures
            r is Some <==> old(self)@.has_room(l),
            r matches Some(id) ==> id == CreatureID(old(self).next_creature_id) && final(self)@
                == old(self)@.numbered().joined(
                Creature::spec_new_kestrel(old(self).next_creature_id),
                l,
            ),
            r is None ==> final(self)@ == old(self)@,
            final(self).wf(),
    {
        if self.occupant(l).is_some() || self.terrain_at(l).blocks_route() || l.z
            < self.deepest_depth || l.z > 0 {
            return None;
        }
        let id = self.next_creature_id;
        proof {
            self@.lemma_player();
            assert(self@.creatures[self@.player_index()].id.0 < self@.next_creature_id);
            self@.lemma_numbered();
            self@.numbered().lemma_joined(Creature::spec_new_kestrel(id), l);
        }
        self.next_creature_id = self.next_creature_id + 1;
        assert(self@ =~= old(self)@.numbered());
        self.join(Creature::new_kestrel(id), l);
        Some(CreatureID(id))
    }

    /// The player.
    pub fn player(&self) -> (r: &Creature)
        requires
            self.wf(),
        ensures
            r@ == self@.player(),
    {
        let p = self.player_index();
        &self.creature_list[p]
    }

    /// The creature with the identifier `id`, if it is in the world.
    pub fn creature(&self, id: CreatureID) -> (r: Option<&Creature>)
        requires
            self@.in_sync(),
        ensures
            r is Some <==> self@.has_id(id),
            r matches Some(c) ==> c@ == self@.creatures[self@.index_of(id)],
    {
        match self.index_of(id) {
            Some(i) => Some(&self.creature_list[i]),
            None => None,
        }
    }

    /// The cell on which the creature with the identifier `id` stands, if
    /// it is in the world.
    pub fn cell_of(&self, id: CreatureID) -> (r: Option<Location>)
        requires
            self@.in_sync(),
        ensures
            r is Some <==> self@.has_id(id),
            r matches Some(l) ==> l == self@.cells[self@.index_of(id)],
    {
        match self.index_of(id) {
            Some(i) => Some(self.creature_cells[i]),
            None => None,
        }
    }

    /// What lies on `l`, the first laid first.
    pub fn items_at(&self, l: Location) -> (r: Vec<Item>)
        ensures
            r@ == self@.items_at(l),
    {
        let mut out: Vec<Item> = Vec::new();
        match self.item_locations.get(&l.key()) {
            Some(stack) => {
                let mut i: usize = 0;
                while i < stack.len()
                    invariant
                        i <= stack.len(),
                        out@ == stack@.take(i as int),
                    decreases stack.len() - i,
                {
                    out.push(stack[i]);
                    assert(out@ =~= stack@.take(i + 1));
                    i = i + 1;
                }
                assert(stack@.take(stack.len() as int) =~= stack@);
            },
            None => {},
        }
        out
    }
}

} // verus!
