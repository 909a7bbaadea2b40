//! A world written down in plain values, fit to be stored, and the way back
//! from what was stored to a world in play.

use vstd::prelude::*;
use vstd::std_specs::iter::IteratorSpec;
use std::collections::HashMap;
use crate::creature::{Creature, CreatureID, CreatureView};
use crate::item::Item;
use crate::location::Location;
use crate::prng::PCG32;
use crate::terrain::Terrain;
use crate::world::{creature_views, GameWorld, WorldView};

verus! {

/// A world written down: the maps are lists of entries, and the map of who
/// stands where is left out, for the list of creatures and their cells
/// says it all.
#[derive(Debug)]
pub struct SavedWorld {
    pub player_location: Location,
    pub next_creature_id: usize,
    pub creature_list: Vec<Creature>,
    pub creature_cells: Vec<Location>,
    pub item_stacks: Vec<(u128, Vec<Item>)>,
    pub terrain_cells: Vec<(u128, Terrain)>,
    pub gen: PCG32,
    pub deepest_depth: i32,
}

/// A written world as a value of mathematics.
#[verifier::ext_equal]
pub struct SavedView {
    pub player_location: Location,
    pub next_creature_id: usize,
    pub creatures: Seq<CreatureView>,
    pub cells: Seq<Location>,
    pub items: Seq<(u128, Seq<Item>)>,
    pub terrain: Seq<(u128, Terrain)>,
    pub gen: PCG32,
    pub deepest_depth: i32,
}

/// The stacks of a list of entries as sequences.
pub open spec fn stack_views(entries: Seq<(u128, Vec<Item>)>) -> Seq<(u128, Seq<Item>)> {
    Seq::new(entries.len(), |i: int| (entries[i].0, entries[i].1@))
}

impl View for SavedWorld {
    type V = SavedView;

    open spec fn view(&self) -> SavedView {
        SavedView {
            player_location: self.player_location,
            next_creature_id: self.next_creature_id,
            creatures: creature_views(self.creature_list@),
            cells: self.creature_cells@,
            items: stack_views(self.item_stacks@),
            terrain: self.terrain_cells@,
            gen: self.gen,
            deepest_depth: self.deepest_depth,
        }
    }
}

/// The map that a list of entries makes: a later entry for a key takes
/// the place of an earlier one.
pub open spec fn map_of<V>(entries: Seq<(u128, V)>) -> Map<u128, V>
    decreases entries.len(),
{
    if entries.len() == 0 {
        Map::empty()
    } else {
        map_of(entries.drop_last()).insert(entries.last().0, entries.last().1)
    }
}

/// The map of who stands where that the first `n` creatures and their
/// cells make.
pub open spec fn occupancy_of(creatures: Seq<CreatureView>, cells: Seq<Location>, n: int) -> Map<
    u128,
    CreatureID,
>
    decreases n,
{
    if n <= 0 {
        Map::empty()
    } else {
        occupancy_of(creatures, cells, n - 1).insert(cells[n - 1].key(), creatures[n - 1].id)
    }
}

/// The world that a written world makes, whether fit for play or not. It
/// takes as many cells as creatures.
pub open spec fn unpacked(s: SavedView) -> WorldView {
    WorldView {
        player_location: s.player_location,
        next_creature_id: s.next_creature_id,
        creatures: s.creatures,
        cells: s.cells,
        occupancy: occupancy_of(s.creatures, s.cells, s.creatures.len() as int),
        items: map_of(s.items),
        terrain: map_of(s.terrain),
        gen: s.gen,
        deepest_depth: s.deepest_depth,
    }
}

/// The world in play that a written world gives back: none if it names
/// more or fewer cells than creatures, or if what it makes is unfit for
/// play.
pub open spec fn restored(s: SavedView) -> Option<WorldView> {
    if s.cells.len() == s.creatures.len() && unpacked(s).wf() {
        Some(unpacked(s))
    } else {
        None
    }
}

/// A list of entries with a key each of its own makes the map that holds
/// exactly these entries.
pub proof fn lemma_map_of_entries<V>(entries: Seq<(u128, V)>)
    requires
        forall|i: int, j: int|
            0 <= i < entries.len() && 0 <= j < entries.len() && i != j ==> (#[trigger] entries[i]).0
                != (#[trigger] entries[j]).0,
    ensures
        forall|k: u128| #[trigger]
            map_of(entries).contains_key(k) <==> exists|i: int|
                0 <= i < entries.len() && (#[trigger] entries[i]).0 == k,
        forall|i: int|
            0 <= i < entries.len() ==> map_of(entries).contains_key((#[trigger] entries[i]).0)
                && map_of(entries)[entries[i].0] == entries[i].1,
    decreases entries.len(),
{
    if entries.len() > 0 {
        let rest = entries.drop_last();
        let last = entries.last();
        assert forall|i: int, j: int|
            0 <= i < rest.len() && 0 <= j < rest.len() && i != j implies (#[trigger] rest[i]).0 != (
        #[trigger] rest[j]).0 by {
            assert(rest[i] == entries[i]);
            assert(rest[j] == entries[j]);
        }
        lemma_map_of_entries(rest);
        assert forall|k: u128| #[trigger]
            map_of(entries).contains_key(k) <==> exists|i: int|
                0 <= i < entries.len() && (#[trigger] entries[i]).0 == k by {
            if map_of(entries).contains_key(k) {
                if k == last.0 {
                    assert(entries[entries.len() - 1].0 == k);
                } else {
                    assert(map_of(rest).contains_key(k));
                    let i = choose|i: int| 0 <= i < rest.len() && (#[trigger] rest[i]).0 == k;
                    assert(entries[i].0 == k);
                }
            }
            if exists|i: int| 0 <= i < entries.len() && (#[trigger] entries[i]).0 == k {
                let i = choose|i: int| 0 <= i < entries.len() && (#[trigger] entries[i]).0 == k;
                if i < rest.len() {
                    assert(rest[i].0 == k);
                    assert(map_of(rest).contains_key(k));
                }
            }
        }
        assert forall|i: int| 0 <= i < entries.len() implies map_of(entries).contains_key(
            (#[trigger] entries[i]).0,
        ) && map_of(entries)[entries[i].0] == entries[i].1 by {
            if i < rest.len() {
                assert(rest[i] == entries[i]);
                assert(entries[i].0 != entries[entries.len() - 1].0);
            }
        }
    }
}

/// In a world in sync the creatures and their cells make the map of who
/// stands where.
pub proof fn lemma_occupancy_of(w: WorldView, n: int)
    requires
        w.in_sync(),
        0 <= n <= w.creatures.len(),
    ensures
        forall|k: u128| #[trigger]
            occupancy_of(w.creatures, w.cells, n).contains_key(k) <==> exists|i: int|
                0 <= i < n && (#[trigger] w.cells[i]).key() == k,
        forall|i: int|
            0 <= i < n ==> occupancy_of(w.creatures, w.cells, n).contains_key(
                (#[trigger] w.cells[i]).key(),
            ) && occupancy_of(w.creatures, w.cells, n)[w.cells[i].key()] == w.creatures[i].id,
        n == w.creatures.len() ==> occupancy_of(w.creatures, w.cells, n) == w.occupancy,
    decreases n,
{
    let occ = occupancy_of(w.creatures, w.cells, n);
    if n > 0 {
        lemma_occupancy_of(w, n - 1);
        let before = occupancy_of(w.creatures, w.cells, n - 1);
        assert forall|k: u128| #[trigger]
            occ.contains_key(k) <==> exists|i: int| 0 <= i < n && (#[trigger] w.cells[i]).key() == k by {
            if occ.contains_key(k) {
                if k == w.cells[n - 1].key() {
                } else {
                    assert(before.contains_key(k));
                    let i = choose|i: int| 0 <= i < n - 1 && (#[trigger] w.cells[i]).key() == k;
                    assert(w.cells[i].key() == k);
                }
            }
            if exists|i: int| 0 <= i < n && (#[trigger] w.cells[i]).key() == k {
                let i = choose|i: int| 0 <= i < n && (#[trigger] w.cells[i]).key() == k;
                if i < n - 1 {
                    assert(before.contains_key(w.cells[i].key()));
                }
            }
        }
        assert forall|i: int| 0 <= i < n implies occ.contains_key((#[trigger] w.cells[i]).key())
            && occ[w.cells[i].key()] == w.creatures[i].id by {
            if i < n - 1 {
                w.lemma_cells_distinct(i, n - 1);
                assert(before.contains_key(w.cells[i].key()));
            }
        }
    }
    if n == w.creatures.len() {
        assert forall|k: u128| occ.contains_key(k) <==> w.occupancy.contains_key(k) by {
            if w.occupancy.contains_key(k) {
                let i = choose|i: int| 0 <= i < w.cells.len() && (#[trigger] w.cells[i]).key() == k;
                assert(w.cells[i].key() == k);
            }
            if occ.contains_key(k) {
                let i = choose|i: int| 0 <= i < n && (#[trigger] w.cells[i]).key() == k;
                assert(w.occupancy.contains_key(w.cells[i].key()));
            }
        }
        assert forall|k: u128| occ.contains_key(k) implies occ[k] == w.occupancy[k] by {
            let i = choose|i: int| 0 <= i < n && (#[trigger] w.cells[i]).key() == k;
            assert(occ[w.cells[i].key()] == w.creatures[i].id);
            assert(w.occupancy[w.cells[i].key()] == w.creatures[i].id);
        }
        assert(occ =~= w.occupancy);
    }
}

/// A copy of a stack of items.
pub fn copy_stack(stack: &Vec<Item>) -> (r: Vec<Item>)
    ensures
        r@ == stack@,
{
    let mut out: Vec<Item> = Vec::new();
    let mut i: usize = 0;
    while i < stack.len()
        invariant
            i <= stack.len(),
            out@ == stack@.take(i as int),
        decreases stack.len() - i,
    {
        out.push(stack[i]);
        assert(out@ =~= stack@.take(i + 1));
        i = i + 1;
    }
    assert(stack@.take(stack.len() as int) =~= stack@);
    out
}

/// A copy of a creature.
pub fn copy_creature(c: &Creature) -> (r: Creature)
    ensures
        r@ == c@,
{
    Creature {
        icon: c.icon,
        color: c.color,
        is_the_player: c.is_the_player,
        id: c.id,
        hit_points: c.hit_points,
        damage_step: c.damage_step,
        inventory: copy_stack(&c.inventory),
    }
}

impl GameWorld {
    /// Writes the world down. What is written gives the same world back.
    pub fn save(&self) -> (r: SavedWorld)
        requires
            self.wf(),
        ensures
            restored(r@) == Some(self@),
    {
        let mut creature_list: Vec<Creature> = Vec::new();
        let mut creature_cells: Vec<Location> = Vec::new();
        let mut i: usize = 0;
        while i < self.creature_list.len()
            invariant
                i <= self.creature_list.len(),
                self.creature_cells.len() == self.creature_list.len(),
                creature_list@.len() == i,
                creature_views(creature_list@) == self@.creatures.take(i as int),
                creature_cells@ == self@.cells.take(i as int),
            decreases self.creature_list.len() - i,
        {
            let ghost before = creature_list@;
            creature_list.push(copy_creature(&self.creature_list[i]));
            creature_cells.push(self.creature_cells[i]);
            proof {
                assert forall|j: int| 0 <= j < i + 1 implies creature_views(creature_list@)[j]
                    == self@.creatures.take(i + 1)[j] by {
                    if j < i {
                        assert(creature_views(before)[j] == self@.creatures.take(i as int)[j]);
                        assert(creature_list@[j] == before[j]);
                    }
                }
            }
            assert(creature_views(creature_list@) =~= self@.creatures.take(i + 1));
            assert(creature_cells@ =~= self@.cells.take(i + 1));
            i = i + 1;
        }
        assert(self@.creatures.take(self.creature_list.len() as int) =~= self@.creatures);
        assert(self@.cells.take(self.creature_list.len() as int) =~= self@.cells);

        let mut terrain_cells: Vec<(u128, Terrain)> = Vec::new();
        let ghost terrain_keys = self.terrain.keys().remaining();
        for k in it: self.terrain.keys()
            invariant
                it.seq() == terrain_keys,
                terrain_keys == self.terrain.keys().remaining(),
                terrain_cells@.len() == it.index(),
                forall|j: int|
                    0 <= j < terrain_cells@.len() ==> (#[trigger] terrain_cells@[j]).0
                        == *terrain_keys[j] && self.terrain@.contains_key(terrain_cells@[j].0)
                        && terrain_cells@[j].1 == self.terrain@[terrain_cells@[j].0],
        {
            proof {
                let n = it.index();
                assert(terrain_keys.unref()[n] == *k);
                assert(terrain_keys.unref().to_set().contains(*k));
            }
            match self.terrain.get(k) {
                Some(t) => {
                    terrain_cells.push((*k, *t));
                },
                None => {},
            }
        }

        let mut item_stacks: Vec<(u128, Vec<Item>)> = Vec::new();
        let ghost item_keys = self.item_locations.keys().remaining();
        for k in it: self.item_locations.keys()
            invariant
                it.seq() == item_keys,
                item_keys == self.item_locations.keys().remaining(),
                item_stacks@.len() == it.index(),
                forall|j: int|
                    0 <= j < item_stacks@.len() ==> (#[trigger] item_stacks@[j]).0 == *item_keys[j]
                        && self.item_locations@.contains_key(item_stacks@[j].0)
                        && item_stacks@[j].1@ == self.item_locations@[item_stacks@[j].0]@,
        {
            proof {
                let n = it.index();
                assert(item_keys.unref()[n] == *k);
                assert(item_keys.unref().to_set().contains(*k));
            }
            match self.item_locations.get(k) {
                Some(stack) => {
                    item_stacks.push((*k, copy_stack(stack)));
                },
                None => {},
            }
        }

        let saved = SavedWorld {
            player_location: self.player_location,
            next_creature_id: self.next_creature_id,
            creature_list,
            creature_cells,
            item_stacks,
            terrain_cells,
            gen: self.gen,
            deepest_depth: self.deepest_depth,
        };
        proof {
            let s = saved@;
            let w = self@;
            lemma_occupancy_of(w, w.creatures.len() as int);
            // the terrain
            assert forall|i: int, j: int|
                0 <= i < s.terrain.len() && 0 <= j < s.terrain.len() && i != j implies (
            #[trigger] s.terrain[i]).0 != (#[trigger] s.terrain[j]).0 by {
                assert(terrain_keys[i] != terrain_keys[j]);
            }
            lemma_map_of_entries(s.terrain);
            assert forall|k: u128| map_of(s.terrain).contains_key(k) <==> w.terrain.contains_key(
                k,
            ) by {
                if w.terrain.contains_key(k) {
                    assert(terrain_keys.unref().to_set().contains(k));
                    let i = choose|i: int|
                        0 <= i < terrain_keys.unref().len() && terrain_keys.unref()[i] == k;
                    assert(s.terrain[i].0 == k);
                }
                if map_of(s.terrain).contains_key(k) {
                    let i = choose|i: int| 0 <= i < s.terrain.len() && (#[trigger] s.terrain[i]).0 == k;
                    assert(w.terrain.contains_key(s.terrain[i].0));
                }
            }
            assert forall|k: u128| map_of(s.terrain).contains_key(k) implies map_of(s.terrain)[k]
                == w.terrain[k] by {
                let i = choose|i: int| 0 <= i < s.terrain.len() && (#[trigger] s.terrain[i]).0 == k;
                assert(map_of(s.terrain)[s.terrain[i].0] == s.terrain[i].1);
            }
            assert(map_of(s.terrain) =~= w.terrain);
            // the items
            assert forall|i: int, j: int|
                0 <= i < s.items.len() && 0 <= j < s.items.len() && i != j implies (
            #[trigger] s.items[i]).0 != (#[trigger] s.items[j]).0 by {
                assert(item_keys[i] != item_keys[j]);
                assert(s.items[i].0 == item_stacks@[i].0);
                assert(s.items[j].0 == item_stacks@[j].0);
            }
            lemma_map_of_entries(s.items);
            assert forall|k: u128| map_of(s.items).contains_key(k) <==> w.items.contains_key(
                k,
            ) by {
                if w.items.contains_key(k) {
                    assert(item_keys.unref().to_set().contains(k));
                    let i = choose|i: int|
                        0 <= i < item_keys.unref().len() && item_keys.unref()[i] == k;
                    assert(item_stacks@[i].0 == k);
                    assert(s.items[i].0 == k);
                }
                if map_of(s.items).contains_key(k) {
                    let i = choose|i: int| 0 <= i < s.items.len() && (#[trigger] s.items[i]).0 == k;
                    assert(self.item_locations@.contains_key(item_stacks@[i].0));
                }
            }
            assert forall|k: u128| map_of(s.items).contains_key(k) implies map_of(s.items)[k]
                == w.items[k] by {
                let i = choose|i: int| 0 <= i < s.items.len() && (#[trigger] s.items[i]).0 == k;
                assert(map_of(s.items)[s.items[i].0] == s.items[i].1);
                assert(item_stacks@[i].1@ == self.item_locations@[item_stacks@[i].0]@);
            }
            assert(map_of(s.items) =~= w.items);
            assert(unpacked(s) =~= w);
        }
        saved
    }

    /// Makes a world in play of a written world, if it is one.
    pub fn load(saved: SavedWorld) -> (r: Option<GameWorld>)
        ensures
            match r {
                Some(world) => restored(saved@) == Some(world@) && world.wf(),
                None => restored(saved@) is None,
            },
    {
        let n = saved.creature_list.len();
        if saved.creature_cells.len() != n {
            return None;
        }
        let mut occupancy: HashMap<u128, CreatureID> = HashMap::new();
        let mut i: usize = 0;
        while i < n
            invariant
                i <= n,
                n == saved.creature_list.len(),
                n == saved.creature_cells.len(),
                occupancy@ == occupancy_of(saved@.creatures, saved@.cells, i as int),
            decreases n - i,
        {
            occupancy.insert(saved.creature_cells[i].key(), saved.creature_list[i].id);
            i = i + 1;
        }
        let mut terrain: HashMap<u128, Terrain> = HashMap::new();
        let mut i: usize = 0;
        assert(saved.terrain_cells@.take(0) =~= Seq::empty());
        while i < saved.terrain_cells.len()
            invariant
                i <= saved.terrain_cells.len(),
                terrain@ == map_of(saved.terrain_cells@.take(i as int)),
            decreases saved.terrain_cells.len() - i,
        {
            proof {
                assert(saved.terrain_cells@.take(i + 1).drop_last() =~= saved.terrain_cells@.take(
                    i as int,
                ));
            }
            terrain.insert(saved.terrain_cells[i].0, saved.terrain_cells[i].1);
            i = i + 1;
        }
        assert(saved.terrain_cells@.take(saved.terrain_cells.len() as int) =~= saved.terrain_cells@);
        let mut items: HashMap<u128, Vec<Item>> = HashMap::new();
        let mut i: usize = 0;
        assert(saved@.items.take(0) =~= Seq::empty());
        while i < saved.item_stacks.len()
            invariant
                i <= saved.item_stacks.len(),
                crate::world::stacks(items@) == map_of(saved@.items.take(i as int)),
            decreases saved.item_stacks.len() - i,
        {
            proof {
                assert(saved@.items.take(i + 1).drop_last() =~= saved@.items.take(i as int));
                assert(saved@.items.take(i + 1).last() == (
                    saved.item_stacks@[i as int].0,
                    saved.item_stacks@[i as int].1@,
                ));
            }
            let ghost before = items@;
            items.insert(saved.item_stacks[i].0, copy_stack(&saved.item_stacks[i].1));
            assert(crate::world::stacks(items@) =~= crate::world::stacks(before).insert(
                saved.item_stacks@[i as int].0,
                saved.item_stacks@[i as int].1@,
            ));
            i = i + 1;
        }
        assert(saved@.items.take(saved.item_stacks.len() as int) =~= saved@.items);
        let ghost written = saved@;
        let world = GameWorld {
            player_location: saved.player_location,
            next_creature_id: saved.next_creature_id,
            creature_list: saved.creature_list,
            creature_cells: saved.creature_cells,
            creature_locations: occupancy,
            item_locations: items,
            terrain,
            gen: saved.gen,
            deepest_depth: saved.deepest_depth,
        };
        assert(world@ =~= unpacked(written));
        if world.is_playable() {
            Some(world)
        } else {
            None
        }
    }
}

} // verus!
