//! The world: who stands where, what lies where, and what every cell is
//! made of; and the single steps by which the world changes.

use vstd::prelude::*;
use std::collections::HashMap;
use crate::creature::{Creature, CreatureID, CreatureView};
use crate::item::Item;
use crate::location::Location;
use crate::pathing::walkable;
use crate::prng::PCG32;
use crate::sight::cell;
use crate::terrain::Terrain;

verus! {

/// The identifier of the player, the first that a world hands out.
pub const PLAYER_ID: usize = 1;

#[derive(Debug)]
pub struct GameWorld {
    pub player_location: Location,
    pub next_creature_id: usize,
    pub creature_list: Vec<Creature>,
    /// The cell of each creature of `creature_list`, index by index.
    pub creature_cells: Vec<Location>,
    /// Who stands on a cell, by the cell's key.
    pub creature_locations: HashMap<u128, CreatureID>,
    /// What lies on a cell, by the cell's key.
    pub item_locations: HashMap<u128, Vec<Item>>,
    /// What a cell is made of, by the cell's key.
    pub terrain: HashMap<u128, Terrain>,
    pub gen: PCG32,
    /// The floor of the deepest level made so far.
    pub deepest_depth: i32,
}

/// The world as a value of mathematics.
#[verifier::ext_equal]
pub struct WorldView {
    pub player_location: Location,
    pub next_creature_id: usize,
    pub creatures: Seq<CreatureView>,
    pub cells: Seq<Location>,
    pub occupancy: Map<u128, CreatureID>,
    pub items: Map<u128, Seq<Item>>,
    pub terrain: Map<u128, Terrain>,
    pub gen: PCG32,
    pub deepest_depth: i32,
}

/// The creatures of the list as values of mathematics.
pub open spec fn creature_views(list: Seq<Creature>) -> Seq<CreatureView> {
    Seq::new(list.len(), |i: int| list[i]@)
}

/// The stacks of items as sequences.
pub open spec fn stacks(m: Map<u128, Vec<Item>>) -> Map<u128, Seq<Item>> {
    Map::new(|k: u128| m.contains_key(k), |k: u128| m[k]@)
}

impl View for GameWorld {
    type V = WorldView;

    open spec fn view(&self) -> WorldView {
        WorldView {
            player_location: self.player_location,
            next_creature_id: self.next_creature_id,
            creatures: creature_views(self.creature_list@),
            cells: self.creature_cells@,
            occupancy: self.creature_locations@,
            items: stacks(self.item_locations@),
            terrain: self.terrain@,
            gen: self.gen,
            deepest_depth: self.deepest_depth,
        }
    }
}

impl WorldView {
    /// Somebody stands on `l`.
    pub open spec fn occupied(self, l: Location) -> bool {
        self.occupancy.contains_key(l.key())
    }

    /// What `l` is made of, for who only looks: an unknown cell is a wall.
    pub open spec fn terrain_at(self, l: Location) -> Terrain {
        cell(self.terrain, l)
    }

    /// What `l` is made of, for who steps onto it: an unknown cell is floor.
    pub open spec fn footing(self, l: Location) -> Terrain {
        if self.terrain.contains_key(l.key()) {
            self.terrain[l.key()]
        } else {
            Terrain::Floor
        }
    }

    /// What lies on `l`.
    pub open spec fn items_at(self, l: Location) -> Seq<Item> {
        if self.items.contains_key(l.key()) {
            self.items[l.key()]
        } else {
            Seq::empty()
        }
    }

    /// Some creature of the list has the identifier `id`.
    pub open spec fn has_id(self, id: CreatureID) -> bool {
        exists|i: int| 0 <= i < self.creatures.len() && (#[trigger] self.creatures[i]).id == id
    }

    /// The index of the creature with the identifier `id`.
    pub open spec fn index_of(self, id: CreatureID) -> int {
        choose|i: int| 0 <= i < self.creatures.len() && (#[trigger] self.creatures[i]).id == id
    }

    /// The index of the player in the list.
    pub open spec fn player_index(self) -> int {
        choose|i: int| 0 <= i < self.creatures.len() && (#[trigger] self.creatures[i]).is_the_player
    }

    /// The player.
    pub open spec fn player(self) -> CreatureView {
        self.creatures[self.player_index()]
    }

    /// The list of creatures and the map of who stands where agree: each
    /// creature stands on one cell and each taken cell holds one creature.
    /// No identifier occurs twice, and all are below the next to hand out.
    pub open spec fn in_sync(self) -> bool {
        &&& self.cells.len() == self.creatures.len()
        &&& forall|i: int|
            0 <= i < self.creatures.len() ==> PLAYER_ID <= (#[trigger] self.creatures[i]).id.0
                < self.next_creature_id
        &&& forall|i: int, j: int|
            0 <= i < self.creatures.len() && 0 <= j < self.creatures.len() && i != j ==> (
            #[trigger] self.creatures[i]).id != (#[trigger] self.creatures[j]).id
        &&& forall|i: int|
            0 <= i < self.cells.len() ==> self.occupancy.contains_key(
                (#[trigger] self.cells[i]).key(),
            ) && self.occupancy[self.cells[i].key()] == self.creatures[i].id
        &&& forall|k: u128| #[trigger]
            self.occupancy.contains_key(k) ==> exists|i: int|
                0 <= i < self.cells.len() && (#[trigger] self.cells[i]).key() == k
    }

    /// What holds of every world, with or without a player in it.
    pub open spec fn consistent(self) -> bool {
        &&& self.in_sync()
        &&& forall|i: int| 0 <= i < self.cells.len() ==> walkable(self.terrain, #[trigger] self.cells[i])
        &&& forall|i: int|
            0 <= i < self.creatures.len() ==> (#[trigger] self.creatures[i]).damage_step >= 1
        &&& forall|i: int|
            0 <= i < self.creatures.len() ==> ((#[trigger] self.creatures[i]).is_the_player <==> self.creatures[i].id
                == CreatureID(PLAYER_ID))
        &&& forall|i: int|
            0 <= i < self.creatures.len() && (#[trigger] self.creatures[i]).is_the_player
                ==> self.cells[i] == self.player_location
        &&& forall|i: int|
            0 <= i < self.cells.len() ==> self.deepest_depth <= (#[trigger] self.cells[i]).z <= 0
    }

    /// What holds of a world in play: it is consistent, and one creature is
    /// the player.
    pub open spec fn wf(self) -> bool {
        &&& self.consistent()
        &&& self.has_id(CreatureID(PLAYER_ID))
    }

    /// The world after creature `i` went to `to`.
    pub open spec fn moved(self, i: int, to: Location) -> WorldView {
        WorldView {
            player_location: if self.creatures[i].is_the_player {
                to
            } else {
                self.player_location
            },
            cells: self.cells.update(i, to),
            occupancy: self.occupancy.remove(self.cells[i].key()).insert(
                to.key(),
                self.creatures[i].id,
            ),
            ..self
        }
    }

    /// The world without creature `i`.
    pub open spec fn without(self, i: int) -> WorldView {
        WorldView {
            creatures: self.creatures.remove(i),
            cells: self.cells.remove(i),
            occupancy: self.occupancy.remove(self.cells[i].key()),
            ..self
        }
    }

    /// The world with one more creature `c`, at the end of the list, on
    /// `at`.
    pub open spec fn joined(self, c: CreatureView, at: Location) -> WorldView {
        WorldView {
            creatures: self.creatures.push(c),
            cells: self.cells.push(at),
            occupancy: self.occupancy.insert(at.key(), c.id),
            ..self
        }
    }

    /// The world in which one more identifier is handed out.
    pub open spec fn numbered(self) -> WorldView {
        WorldView { next_creature_id: (self.next_creature_id + 1) as usize, ..self }
    }

    /// No creature of the list has the identifier `id`.
    pub open spec fn is_fresh(self, id: CreatureID) -> bool {
        forall|i: int| 0 <= i < self.creatures.len() ==> (#[trigger] self.creatures[i]).id != id
    }

    /// The world in which creature `i` is `c`.
    pub open spec fn with_creature(self, i: int, c: CreatureView) -> WorldView {
        WorldView { creatures: self.creatures.update(i, c), ..self }
    }

    /// The world in which `l` is made of `terrain`.
    pub open spec fn with_terrain(self, l: Location, terrain: Terrain) -> WorldView {
        WorldView { terrain: self.terrain.insert(l.key(), terrain), ..self }
    }

    /// The world in which `stack` lies on `l`.
    pub open spec fn with_items(self, l: Location, stack: Seq<Item>) -> WorldView {
        WorldView { items: self.items.insert(l.key(), stack), ..self }
    }

    /// The world with the generator `gen`.
    pub open spec fn with_gen(self, gen: PCG32) -> WorldView {
        WorldView { gen, ..self }
    }

    /// The world in which somebody stepped on `l`: if the map did not hold
    /// the cell, it now holds it as floor.
    pub open spec fn trodden(self, l: Location) -> WorldView {
        if self.terrain.contains_key(l.key()) {
            self
        } else {
            self.with_terrain(l, Terrain::Floor)
        }
    }

    /// In a world in sync, the creature on a taken cell is in the list, and
    /// the index of an identifier is the one place where it stands.
    pub proof fn lemma_index_of(self, i: int)
        requires
            self.in_sync(),
            0 <= i < self.creatures.len(),
        ensures
            self.has_id(self.creatures[i].id),
            self.index_of(self.creatures[i].id) == i,
    {
        let id = self.creatures[i].id;
        let j = self.index_of(id);
        assert(self.creatures[j].id == id);
    }

    /// In a world in sync, two creatures do not share a cell, and the
    /// creature on a taken cell is in the list.
    pub proof fn lemma_cells_distinct(self, i: int, j: int)
        requires
            self.in_sync(),
            0 <= i < self.creatures.len(),
            0 <= j < self.creatures.len(),
            i != j,
        ensures
            self.cells[i] != self.cells[j],
            self.cells[i].key() != self.cells[j].key(),
    {
        Location::lemma_key_injective(self.cells[i], self.cells[j]);
    }

    /// Whoever stands on a taken cell is in the list, at the place of its
    /// identifier, and that cell is its cell.
    pub proof fn lemma_occupant(self, l: Location) -> (i: int)
        requires
            self.in_sync(),
            self.occupied(l),
        ensures
            0 <= i < self.creatures.len(),
            self.cells[i] == l,
            self.creatures[i].id == self.occupancy[l.key()],
            self.has_id(self.occupancy[l.key()]),
            self.index_of(self.occupancy[l.key()]) == i,
    {
        let i = choose|i: int| 0 <= i < self.cells.len() && (#[trigger] self.cells[i]).key() == l.key();
        Location::lemma_key_injective(self.cells[i], l);
        self.lemma_index_of(i);
        i
    }

    /// In a world in play the player is in the list, on the player's cell.
    pub proof fn lemma_player(self)
        requires
            self.wf(),
        ensures
            0 <= self.player_index() < self.creatures.len(),
            self.player().is_the_player,
            self.player().id == CreatureID(PLAYER_ID),
            self.cells[self.player_index()] == self.player_location,
            self.index_of(CreatureID(PLAYER_ID)) == self.player_index(),
            self.deepest_depth <= self.player_location.z <= 0,
            self.occupied(self.player_location),
            walkable(self.terrain, self.player_location),
            forall|i: int|
                0 <= i < self.creatures.len() && (#[trigger] self.creatures[i]).is_the_player ==> i
                    == self.player_index(),
    {
        let p = self.index_of(CreatureID(PLAYER_ID));
        assert(self.creatures[p].is_the_player);
        let q = self.player_index();
        assert(self.creatures[q].is_the_player);
        assert(self.deepest_depth <= self.cells[q].z <= 0);
        assert(walkable(self.terrain, self.cells[q]));
        assert(self.occupancy.contains_key(self.cells[q].key()));
        assert forall|i: int|
            0 <= i < self.creatures.len() && (#[trigger] self.creatures[i]).is_the_player implies i
            == q by {
            assert(self.creatures[i].id == self.creatures[q].id);
        }
    }

    /// Going to a free cell that is no wall, on one of the floors made, keeps
    /// the world consistent.
    pub proof fn lemma_moved(self, i: int, to: Location)
        requires
            self.consistent(),
            0 <= i < self.creatures.len(),
            !self.occupied(to),
            walkable(self.terrain, to),
            self.deepest_depth <= to.z <= 0,
        ensures
            self.moved(i, to).consistent(),
            self.has_id(CreatureID(PLAYER_ID)) ==> self.moved(i, to).has_id(CreatureID(PLAYER_ID)),
    {
        let w = self.moved(i, to);
        assert forall|j: int| 0 <= j < w.cells.len() implies w.occupancy.contains_key(
            (#[trigger] w.cells[j]).key(),
        ) && w.occupancy[w.cells[j].key()] == w.creatures[j].id by {
            if j != i {
                self.lemma_cells_distinct(i, j);
                Location::lemma_key_injective(self.cells[j], to);
                assert(self.occupancy.contains_key(self.cells[j].key()));
            }
        }
        assert forall|k: u128| #[trigger] w.occupancy.contains_key(k) implies exists|j: int|
            0 <= j < w.cells.len() && (#[trigger] w.cells[j]).key() == k by {
            if k == to.key() {
                assert(w.cells[i].key() == k);
            } else {
                assert(self.occupancy.contains_key(k));
                let j = choose|j: int|
                    0 <= j < self.cells.len() && (#[trigger] self.cells[j]).key() == k;
                assert(w.cells[j].key() == k);
            }
        }
        assert forall|j: int| 0 <= j < w.cells.len() implies walkable(
            w.terrain,
            #[trigger] w.cells[j],
        ) && w.deepest_depth <= w.cells[j].z <= 0 by {
            if j != i {
                assert(walkable(self.terrain, self.cells[j]));
                assert(self.deepest_depth <= self.cells[j].z <= 0);
            }
        }
        assert forall|j: int|
            0 <= j < w.creatures.len() && (#[trigger] w.creatures[j]).is_the_player implies w.cells[j]
            == w.player_location by {
            if j != i {
                assert(self.creatures[j].id == self.creatures[i].id || !self.creatures[i].is_the_player);
            }
        }
        if self.has_id(CreatureID(PLAYER_ID)) {
            let p = self.index_of(CreatureID(PLAYER_ID));
            assert(w.creatures[p].id == CreatureID(PLAYER_ID));
        }
    }

    /// Taking a creature away keeps the world consistent; its cell is free
    /// afterwards and its identifier gone.
    pub proof fn lemma_without(self, i: int)
        requires
            self.consistent(),
            0 <= i < self.creatures.len(),
        ensures
            self.without(i).consistent(),
            !self.creatures[i].is_the_player && self.has_id(CreatureID(PLAYER_ID))
                ==> self.without(i).has_id(CreatureID(PLAYER_ID)),
            !self.without(i).occupied(self.cells[i]),
            !self.without(i).has_id(self.creatures[i].id),
    {
        let w = self.without(i);
        assert forall|j: int| 0 <= j < w.creatures.len() implies PLAYER_ID <= (
        #[trigger] w.creatures[j]).id.0 < w.next_creature_id by {
            if j < i {
                assert(w.creatures[j] == self.creatures[j]);
            } else {
                assert(w.creatures[j] == self.creatures[j + 1]);
            }
        }
        assert forall|a: int, b: int|
            0 <= a < w.creatures.len() && 0 <= b < w.creatures.len() && a != b implies (
        #[trigger] w.creatures[a]).id != (#[trigger] w.creatures[b]).id by {
            let a0 = if a < i {
                a
            } else {
                a + 1
            };
            let b0 = if b < i {
                b
            } else {
                b + 1
            };
            assert(w.creatures[a] == self.creatures[a0]);
            assert(w.creatures[b] == self.creatures[b0]);
        }
        assert forall|j: int| 0 <= j < w.cells.len() implies w.occupancy.contains_key(
            (#[trigger] w.cells[j]).key(),
        ) && w.occupancy[w.cells[j].key()] == w.creatures[j].id by {
            let j0 = if j < i {
                j
            } else {
                j + 1
            };
            assert(w.cells[j] == self.cells[j0]);
            assert(w.creatures[j] == self.creatures[j0]);
            self.lemma_cells_distinct(i, j0);
            assert(self.occupancy.contains_key(self.cells[j0].key()));
        }
        assert forall|k: u128| #[trigger] w.occupancy.contains_key(k) implies exists|j: int|
            0 <= j < w.cells.len() && (#[trigger] w.cells[j]).key() == k by {
            assert(self.occupancy.contains_key(k));
            let j0 = choose|j: int| 0 <= j < self.cells.len() && (#[trigger] self.cells[j]).key() == k;
            let j = if j0 < i {
                j0
            } else {
                j0 - 1
            };
            assert(w.cells[j] == self.cells[j0]);
        }
        assert forall|j: int| 0 <= j < w.cells.len() implies walkable(
            w.terrain,
            #[trigger] w.cells[j],
        ) && w.deepest_depth <= w.cells[j].z <= 0 by {
            let j0 = if j < i {
                j
            } else {
                j + 1
            };
            assert(w.cells[j] == self.cells[j0]);
        }
        assert forall|j: int| 0 <= j < w.creatures.len() implies (#[trigger] w.creatures[j]).damage_step
            >= 1 && (w.creatures[j].is_the_player <==> w.creatures[j].id == CreatureID(PLAYER_ID))
            && (w.creatures[j].is_the_player ==> w.cells[j] == w.player_location)
            && w.creatures[j].id != self.creatures[i].id by {
            let j0 = if j < i {
                j
            } else {
                j + 1
            };
            assert(w.creatures[j] == self.creatures[j0]);
            assert(w.cells[j] == self.cells[j0]);
        }
        if !self.creatures[i].is_the_player && self.has_id(CreatureID(PLAYER_ID)) {
            let p = self.index_of(CreatureID(PLAYER_ID));
            let q = if p < i {
                p
            } else {
                p - 1
            };
            assert(w.creatures[q] == self.creatures[p]);
        }
    }

    /// A creature with a fresh identifier that was handed out, on a free cell
    /// that is no wall, on one of the floors made, keeps the world consistent.
    pub proof fn lemma_joined(self, c: CreatureView, at: Location)
        requires
            self.consistent(),
            PLAYER_ID <= c.id.0 < self.next_creature_id,
            self.is_fresh(c.id),
            !self.occupied(at),
            walkable(self.terrain, at),
            c.damage_step >= 1,
            c.is_the_player <==> c.id == CreatureID(PLAYER_ID),
            c.is_the_player ==> at == self.player_location,
            self.deepest_depth <= at.z <= 0,
        ensures
            self.joined(c, at).consistent(),
            self.has_id(CreatureID(PLAYER_ID)) || c.is_the_player ==> self.joined(c, at).has_id(
                CreatureID(PLAYER_ID),
            ),
    {
        let w = self.joined(c, at);
        let n = self.creatures.len() as int;
        assert forall|j: int| 0 <= j < w.cells.len() implies w.occupancy.contains_key(
            (#[trigger] w.cells[j]).key(),
        ) && w.occupancy[w.cells[j].key()] == w.creatures[j].id by {
            if j < n {
                assert(w.cells[j] == self.cells[j]);
                Location::lemma_key_injective(self.cells[j], at);
                assert(self.occupancy.contains_key(self.cells[j].key()));
            }
        }
        assert forall|k: u128| #[trigger] w.occupancy.contains_key(k) implies exists|j: int|
            0 <= j < w.cells.len() && (#[trigger] w.cells[j]).key() == k by {
            if k == at.key() {
                assert(w.cells[n].key() == k);
            } else {
                assert(self.occupancy.contains_key(k));
                let j = choose|j: int|
                    0 <= j < self.cells.len() && (#[trigger] self.cells[j]).key() == k;
                assert(w.cells[j].key() == k);
            }
        }
        assert forall|a: int, b: int|
            0 <= a < w.creatures.len() && 0 <= b < w.creatures.len() && a != b implies (
        #[trigger] w.creatures[a]).id != (#[trigger] w.creatures[b]).id by {
            if a < n {
                assert(w.creatures[a] == self.creatures[a]);
            }
            if b < n {
                assert(w.creatures[b] == self.creatures[b]);
            }
        }
        assert forall|j: int| 0 <= j < w.creatures.len() implies PLAYER_ID <= (
        #[trigger] w.creatures[j]).id.0 < w.next_creature_id && w.creatures[j].damage_step >= 1 && (
        w.creatures[j].is_the_player <==> w.creatures[j].id == CreatureID(PLAYER_ID)) && (
        w.creatures[j].is_the_player ==> w.cells[j] == w.player_location) && walkable(
            w.terrain,
            w.cells[j],
        ) && w.deepest_depth <= w.cells[j].z <= 0 by {
            if j < n {
                assert(w.creatures[j] == self.creatures[j]);
                assert(w.cells[j] == self.cells[j]);
            }
        }
        if self.has_id(CreatureID(PLAYER_ID)) {
            let p = self.index_of(CreatureID(PLAYER_ID));
            assert(w.creatures[p] == self.creatures[p]);
        } else if c.is_the_player {
            assert(w.creatures[n] == c);
        }
    }

    /// Whether a world is consistent hangs on its creatures, their cells
    /// and the terrain alone; more identifiers handed out or more floors
    /// made do no harm.
    pub proof fn lemma_frame(self, other: WorldView)
        requires
            self.consistent(),
            other.creatures == self.creatures,
            other.cells == self.cells,
            other.occupancy == self.occupancy,
            other.terrain == self.terrain,
            other.player_location == self.player_location,
            self.next_creature_id <= other.next_creature_id,
            other.deepest_depth <= self.deepest_depth,
        ensures
            other.consistent(),
            self.has_id(CreatureID(PLAYER_ID)) ==> other.has_id(CreatureID(PLAYER_ID)),
            self.wf() ==> other.wf() && other.player_index() == self.player_index(),
    {
        let w = other;
        assert forall|i: int| 0 <= i < w.creatures.len() implies PLAYER_ID <= (
        #[trigger] w.creatures[i]).id.0 < w.next_creature_id by {
            assert(PLAYER_ID <= self.creatures[i].id.0 < self.next_creature_id);
        }
        assert forall|k: u128| #[trigger] w.occupancy.contains_key(k) implies exists|j: int|
            0 <= j < w.cells.len() && (#[trigger] w.cells[j]).key() == k by {
            assert(self.occupancy.contains_key(k));
            let j = choose|j: int| 0 <= j < self.cells.len() && (#[trigger] self.cells[j]).key() == k;
            assert(w.cells[j].key() == k);
        }
        assert forall|i: int| 0 <= i < w.cells.len() implies w.occupancy.contains_key(
            (#[trigger] w.cells[i]).key(),
        ) && w.occupancy[w.cells[i].key()] == w.creatures[i].id by {
            assert(self.occupancy.contains_key(self.cells[i].key()));
        }
        assert(w.in_sync());
        assert forall|i: int| 0 <= i < w.cells.len() implies w.deepest_depth <= (
        #[trigger] w.cells[i]).z <= 0 && walkable(w.terrain, w.cells[i]) by {
            assert(self.deepest_depth <= self.cells[i].z <= 0);
            assert(walkable(self.terrain, self.cells[i]));
        }
        if self.has_id(CreatureID(PLAYER_ID)) {
            let p = self.index_of(CreatureID(PLAYER_ID));
            assert(w.creatures[p].id == CreatureID(PLAYER_ID));
        }
    }

    /// Handing out an identifier keeps the world consistent, and the
    /// identifier is fresh.
    pub proof fn lemma_numbered(self)
        requires
            self.consistent(),
            self.next_creature_id < usize::MAX,
        ensures
            self.numbered().consistent(),
            self.numbered().is_fresh(CreatureID(self.next_creature_id)),
            self.has_id(CreatureID(PLAYER_ID)) ==> self.numbered().has_id(CreatureID(PLAYER_ID)),
    {
        let w = self.numbered();
        assert forall|i: int| 0 <= i < w.creatures.len() implies PLAYER_ID <= (
        #[trigger] w.creatures[i]).id.0 < w.next_creature_id by {
            assert(PLAYER_ID <= self.creatures[i].id.0 < self.next_creature_id);
        }
        assert forall|k: u128| #[trigger] w.occupancy.contains_key(k) implies exists|j: int|
            0 <= j < w.cells.len() && (#[trigger] w.cells[j]).key() == k by {
            assert(self.occupancy.contains_key(k));
            let j = choose|j: int| 0 <= j < self.cells.len() && (#[trigger] self.cells[j]).key() == k;
            assert(w.cells[j].key() == k);
        }
        assert(w.in_sync());
        assert forall|i: int| 0 <= i < w.cells.len() implies w.deepest_depth <= (
        #[trigger] w.cells[i]).z <= 0 by {
            assert(self.deepest_depth <= self.cells[i].z <= 0);
        }
        if self.has_id(CreatureID(PLAYER_ID)) {
            let p = self.index_of(CreatureID(PLAYER_ID));
            assert(w.creatures[p].id == CreatureID(PLAYER_ID));
        }
    }

    /// Changing a creature but for its identifier and its being the player
    /// keeps the world consistent.
    pub proof fn lemma_with_creature(self, i: int, c: CreatureView)
        requires
            self.consistent(),
            0 <= i < self.creatures.len(),
            c.id == self.creatures[i].id,
            c.is_the_player == self.creatures[i].is_the_player,
            c.damage_step >= 1,
        ensures
            self.with_creature(i, c).consistent(),
            self.has_id(CreatureID(PLAYER_ID)) ==> self.with_creature(i, c).has_id(
                CreatureID(PLAYER_ID),
            ),
    {
        let w = self.with_creature(i, c);
        assert forall|j: int| 0 <= j < w.creatures.len() implies (#[trigger] w.creatures[j]).id
            == self.creatures[j].id && w.creatures[j].is_the_player
            == self.creatures[j].is_the_player && w.creatures[j].damage_step >= 1 by {
            if j != i {
                assert(w.creatures[j] == self.creatures[j]);
            }
        }
        assert forall|j: int| 0 <= j < w.cells.len() implies w.occupancy.contains_key(
            (#[trigger] w.cells[j]).key(),
        ) && w.occupancy[w.cells[j].key()] == w.creatures[j].id by {
            assert(self.occupancy.contains_key(self.cells[j].key()));
            assert(w.creatures[j].id == self.creatures[j].id);
        }
        if self.has_id(CreatureID(PLAYER_ID)) {
            let p = self.index_of(CreatureID(PLAYER_ID));
            assert(w.creatures[p].id == CreatureID(PLAYER_ID));
        }
    }

    /// Changing a cell keeps the world consistent unless it walls somebody
    /// in.
    pub proof fn lemma_with_terrain(self, l: Location, terrain: Terrain)
        requires
            self.consistent(),
            terrain == Terrain::Wall ==> !self.occupied(l),
        ensures
            self.with_terrain(l, terrain).consistent(),
            self.has_id(CreatureID(PLAYER_ID)) ==> self.with_terrain(l, terrain).has_id(
                CreatureID(PLAYER_ID),
            ),
    {
        let w = self.with_terrain(l, terrain);
        assert forall|j: int| 0 <= j < w.cells.len() implies walkable(
            w.terrain,
            #[trigger] w.cells[j],
        ) by {
            Location::lemma_key_injective(self.cells[j], l);
            assert(walkable(self.terrain, self.cells[j]));
            assert(self.occupancy.contains_key(self.cells[j].key()));
        }
        if self.has_id(CreatureID(PLAYER_ID)) {
            let p = self.index_of(CreatureID(PLAYER_ID));
            assert(w.creatures[p].id == CreatureID(PLAYER_ID));
        }
    }
}

impl GameWorld {
    /// The world is fit for play.
    pub open spec fn wf(&self) -> bool {
        self@.wf()
    }

    /// The index in the list of the creature with the identifier `id`.
    pub fn index_of(&self, id: CreatureID) -> (r: Option<usize>)
        requires
            self@.in_sync(),
        ensures
            r is Some <==> self@.has_id(id),
            r matches Some(i) ==> i == self@.index_of(id) && i < self.creature_list.len()
                && self.creature_list[i as int].id == id,
    {
        let mut i: usize = 0;
        while i < self.creature_list.len()
            invariant
                i <= self.creature_list.len(),
                self@.in_sync(),
                forall|j: int| 0 <= j < i ==> (#[trigger] self@.creatures[j]).id != id,
            decreases self.creature_list.len() - i,
        {
            if self.creature_list[i].id == id {
                proof {
                    assert(self@.creatures[i as int].id == id);
                    self@.lemma_index_of(i as int);
                }
                return Some(i);
            }
            i = i + 1;
        }
        None
    }

    /// The index of the player in the list.
    pub fn player_index(&self) -> (r: usize)
        requires
            self.wf(),
        ensures
            r == self@.player_index(),
            r < self.creature_list.len(),
            self.creature_list[r as int].is_the_player,
    {
        proof {
            self@.lemma_player();
        }
        let mut i: usize = 0;
        while i < self.creature_list.len()
            invariant
                i <= self.creature_list.len(),
                i <= self@.player_index() < self.creature_list.len(),
                self@.creatures[self@.player_index()].is_the_player,
                self.wf(),
            decreases self.creature_list.len() - i,
        {
            if self.creature_list[i].is_the_player {
                proof {
                    assert(self@.creatures[i as int].is_the_player);
                    self@.lemma_player();
                }
                return i;
            }
            proof {
                assert(!self@.creatures[i as int].is_the_player);
            }
            i = i + 1;
        }
        0
    }

    /// Who stands on `l`, if anybody.
    pub fn occupant(&self, l: Location) -> (r: Option<CreatureID>)
        ensures
            r is Some <==> self@.occupied(l),
            r matches Some(id) ==> id == self@.occupancy[l.key()],
    {
        match self.creature_locations.get(&l.key()) {
            Some(id) => Some(*id),
            None => None,
        }
    }

    /// What `l` is made of, for who only looks: a cell that the map does
    /// not hold reads as a wall, and the map stays as it is.
    pub fn terrain_at(&self, l: Location) -> (r: Terrain)
        ensures
            r == self@.terrain_at(l),
    {
        match self.terrain.get(&l.key()) {
            Some(found) => *found,
            None => Terrain::Wall,
        }
    }

    /// What `l` is made of, for who steps onto it: a cell that the map does
    /// not hold becomes floor.
    pub fn tread(&mut self, l: Location) -> (r: Terrain)
        ensures
            final(self)@ == old(self)@.trodden(l),
            r == old(self)@.footing(l),
            old(self).wf() ==> final(self).wf(),
    {
        proof {
            if self.wf() && !self@.terrain.contains_key(l.key()) {
                self@.lemma_with_terrain(l, Terrain::Floor);
            }
        }
        let key = l.key();
        let found = match self.terrain.get(&key) {
            Some(found) => Some(*found),
            None => None,
        };
        match found {
            Some(terrain) => terrain,
            None => {
                self.terrain.insert(key, Terrain::Floor);
                assert(self@ =~= old(self)@.trodden(l));
                Terrain::Floor
            },
        }
    }

    /// Makes `l` be of `terrain`.
    pub(crate) fn set_terrain(&mut self, l: Location, terrain: Terrain)
        ensures
            final(self)@ == old(self)@.with_terrain(l, terrain),
    {
        self.terrain.insert(l.key(), terrain);
        assert(self@ =~= old(self)@.with_terrain(l, terrain));
    }

    /// Moves creature `i` to `to`.
    pub(crate) fn relocate(&mut self, i: usize, to: Location)
        requires
            i < old(self).creature_list.len(),
            old(self).creature_cells.len() == old(self).creature_list.len(),
        ensures
            final(self)@ == old(self)@.moved(i as int, to),
    {
        let from = self.creature_cells[i];
        let id = self.creature_list[i].id;
        self.creature_locations.remove(&from.key());
        self.creature_locations.insert(to.key(), id);
        self.creature_cells[i] = to;
        if self.creature_list[i].is_the_player {
            self.player_location = to;
        }
        assert(self@ =~= old(self)@.moved(i as int, to));
    }

    /// Takes creature `i` out of the world.
    pub(crate) fn remove_creature(&mut self, i: usize)
        requires
            i < old(self).creature_list.len(),
            old(self).creature_cells.len() == old(self).creature_list.len(),
        ensures
            final(self)@ == old(self)@.without(i as int),
    {
        let from = self.creature_cells[i];
        self.creature_locations.remove(&from.key());
        self.creature_list.remove(i);
        self.creature_cells.remove(i);
        assert(self@ =~= old(self)@.without(i as int));
    }

    /// Puts `creature` on `at`, at the end of the list.
    pub(crate) fn join(&mut self, creature: Creature, at: Location)
        ensures
            final(self)@ == old(self)@.joined(creature@, at),
    {
        self.creature_locations.insert(at.key(), creature.id);
        self.creature_list.push(creature);
        self.creature_cells.push(at);
        assert(self@ =~= old(self)@.joined(creature@, at));
    }

    /// Takes `damage` hit points from creature `i`.
    pub fn hurt(&mut self, i: usize, damage: i32)
        requires
            i < old(self).creature_list.len(),
            damage >= 0,
        ensures
            final(self)@ == old(self)@.with_creature(
                i as int,
                old(self)@.creatures[i as int].hurt(damage as int),
            ),
            old(self).wf() ==> final(self).wf(),
    {
        proof {
            if self.wf() {
                self@.lemma_with_creature(
                    i as int,
                    self@.creatures[i as int].hurt(damage as int),
                );
            }
        }
        let left: i64 = self.creature_list[i].hit_points as i64 - damage as i64;
        self.creature_list[i].hit_points = if left < -0x8000_0000 {
            -0x8000_0000
        } else {
            left as i32
        };
        assert(self@ =~= old(self)@.with_creature(
            i as int,
            old(self)@.creatures[i as int].hurt(damage as int),
        ));
    }

    /// Lifts what lies on `l`: the cell keeps an empty stack.
    pub fn take_items(&mut self, l: Location) -> (r: Vec<Item>)
        ensures
            r@ == old(self)@.items_at(l),
            final(self)@ == old(self)@.with_items(l, Seq::empty()),
            old(self).wf() ==> final(self).wf(),
    {
        proof {
            if self.wf() {
                self@.lemma_frame(self@.with_items(l, Seq::empty()));
            }
        }
        let key = l.key();
        let found = self.item_locations.remove(&key);
        self.item_locations.insert(key, Vec::new());
        assert(self@ =~= old(self)@.with_items(l, Seq::empty()));
        match found {
            Some(stack) => stack,
            None => Vec::new(),
        }
    }

    /// Lays `item` on top of what lies on `l`.
    pub fn drop_item(&mut self, l: Location, item: Item)
        ensures
            final(self)@ == old(self)@.with_items(l, old(self)@.items_at(l).push(item)),
            old(self).wf() ==> final(self).wf(),
    {
        proof {
            if self.wf() {
                self@.lemma_frame(self@.with_items(l, self@.items_at(l).push(item)));
            }
        }
        let key = l.key();
        let mut stack = match self.item_locations.remove(&key) {
            Some(stack) => stack,
            None => Vec::new(),
        };
        stack.push(item);
        self.item_locations.insert(key, stack);
        assert(self@ =~= old(self)@.with_items(l, old(self)@.items_at(l).push(item)));
    }

    /// Gives creature `i` the items of `stack`, after those it has.
    pub fn give_items(&mut self, i: usize, stack: Vec<Item>)
        requires
            i < old(self).creature_list.len(),
        ensures
            final(self)@ == old(self)@.with_creature(
                i as int,
                old(self)@.creatures[i as int].with_inventory(
                    old(self)@.creatures[i as int].inventory + stack@,
                ),
            ),
            old(self).wf() ==> final(self).wf(),
    {
        proof {
            if self.wf() {
                self@.lemma_with_creature(
                    i as int,
                    self@.creatures[i as int].with_inventory(
                        self@.creatures[i as int].inventory + stack@,
                    ),
                );
            }
        }
        let ghost given = stack@;
        let mut stack = stack;
        self.creature_list[i].inventory.append(&mut stack);
        assert(self@ =~= old(self)@.with_creature(
            i as int,
            old(self)@.creatures[i as int].with_inventory(
                old(self)@.creatures[i as int].inventory + given,
            ),
        ));
    }
}

} // verus!
