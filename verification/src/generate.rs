//! The making of the world: floors of cave, their stairs, their monsters and
//! their items.

use vstd::prelude::*;
use std::collections::HashMap;
use crate::caves::{
    caves_from, make_cellular_caves, open_cell, CaveGrid, Plan, CAVE_ATTEMPTS,
};
use crate::creature::{Creature, CreatureID};
use crate::item::Item;
use crate::location::Location;
use crate::prng::{advance, output, spread, PCG32};
use crate::sight::cell;
use crate::terrain::Terrain;
use crate::world::{GameWorld, WorldView, PLAYER_ID};

verus! {

/// The width and the height of a floor.
pub const GAME_DIMENSIONS: usize = 50;

/// How often the search for a floor cell draws again.
pub const FLOOR_TRIES: usize = 5000;

/// How many caves are made for a floor below stairs before the making of
/// the floor gives up.
pub const LAYER_ATTEMPTS: usize = 1000;

/// The monsters that a new floor gets, at most.
pub const MONSTERS_PER_FLOOR: usize = 25;

/// The items that a new floor gets.
pub const ITEMS_PER_FLOOR: usize = 50;

/// Why the making of a floor gave up.
#[derive(Debug, Clone, Copy, PartialEq, Eq, Structural)]
pub enum BuildError {
    /// No cave was good enough, or none had room for the stairs.
    NoCave,
    /// The search for a floor cell found none.
    NoFloor,
}

/// The search for a floor cell on floor `z`: a column and a row are drawn,
/// and drawn again, up to `tries` more times, until they name a cell of
/// floor. Returns the cell found, if any, and the state of the generator
/// after the search.
#[verifier::opaque]
pub open spec fn floor_search(t: Map<u128, Terrain>, z: i32, state: u64, tries: nat) -> (
    Option<Location>,
    u64,
)
    decreases tries,
{
    let l = Location {
        x: spread(0, (GAME_DIMENSIONS - 1) as u32, output(state)) as i32,
        y: spread(0, (GAME_DIMENSIONS - 1) as u32, output(advance(state))) as i32,
        z,
    };
    let next = advance(advance(state));
    if cell(t, l) == Terrain::Floor {
        (Some(l), next)
    } else if tries == 0 {
        (None, next)
    } else {
        floor_search(t, z, next, (tries - 1) as nat)
    }
}

/// The search for a floor cell, one draw of a cell unfolded.
pub proof fn lemma_floor_search_step(t: Map<u128, Terrain>, z: i32, state: u64, tries: nat)
    ensures
        floor_search(t, z, state, tries) == {
            let l = Location {
                x: spread(0, (GAME_DIMENSIONS - 1) as u32, output(state)) as i32,
                y: spread(0, (GAME_DIMENSIONS - 1) as u32, output(advance(state))) as i32,
                z,
            };
            let next = advance(advance(state));
            if cell(t, l) == Terrain::Floor {
                (Some(l), next)
            } else if tries == 0 {
                (None::<Location>, next)
            } else {
                floor_search(t, z, next, (tries - 1) as nat)
            }
        },
{
    reveal(floor_search);
}

/// A cell that the search finds is a floor cell of floor `z`, on the grid
/// of the floor.
pub proof fn lemma_floor_search_finds(t: Map<u128, Terrain>, z: i32, state: u64, tries: nat)
    ensures
        floor_search(t, z, state, tries).0 matches Some(l) ==> l.z == z && 0 <= l.x
            < GAME_DIMENSIONS && 0 <= l.y < GAME_DIMENSIONS && cell(t, l) == Terrain::Floor,
    decreases tries,
{
    lemma_floor_search_step(t, z, state, tries);
    crate::prng::lemma_spread_in_range(0, (GAME_DIMENSIONS - 1) as u32, output(state));
    crate::prng::lemma_spread_in_range(0, (GAME_DIMENSIONS - 1) as u32, output(advance(state)));
    if tries > 0 {
        lemma_floor_search_finds(t, z, advance(advance(state)), (tries - 1) as nat);
    }
}

/// The tile that a cell of a cave becomes.
pub open spec fn tile(plan: Plan, x: int, y: int) -> Terrain {
    if plan[y][x] {
        Terrain::Wall
    } else {
        Terrain::Floor
    }
}

/// The cell of floor `z` with the number `n`, counted row by row.
pub open spec fn numbered_cell(n: int, z: i32) -> Location {
    Location { x: (n % GAME_DIMENSIONS as int) as i32, y: (n / GAME_DIMENSIONS as int) as i32, z }
}

impl WorldView {
    /// The world after a search for a floor cell on floor `z`, and the
    /// cell found.
    pub open spec fn floor_picked(self, z: i32) -> (WorldView, Option<Location>) {
        let found = floor_search(self.terrain, z, self.gen.state, FLOOR_TRIES as nat);
        (self.with_gen(PCG32 { state: found.1 }), found.0)
    }

    /// The world in which the first `n` cells of floor `z`, counted row by
    /// row, are the tiles of `plan`.
    pub open spec fn laid(self, plan: Plan, z: i32, n: nat) -> WorldView
        decreases n,
    {
        if n == 0 {
            self
        } else {
            let l = numbered_cell(n - 1, z);
            self.laid(plan, z, (n - 1) as nat).with_terrain(l, tile(plan, l.x as int, l.y as int))
        }
    }

    /// The world after one try to put a kestrel on floor `z`, and whether
    /// the search for its cell found one. The kestrel takes the next
    /// identifier, whether it finds room or not; a kestrel whose cell is
    /// taken is left out.
    pub open spec fn kestrel_added(self, z: i32) -> (WorldView, bool) {
        let picked = self.numbered().floor_picked(z);
        match picked.1 {
            None => (picked.0, false),
            Some(l) => if picked.0.occupied(l) {
                (picked.0, true)
            } else {
                (picked.0.joined(Creature::spec_new_kestrel(self.next_creature_id), l), true)
            },
        }
    }

    /// The world after `n` tries to put a kestrel on floor `z`, or after
    /// the first of them that found no cell.
    pub open spec fn kestrels_added(self, z: i32, n: nat) -> (WorldView, bool)
        decreases n,
    {
        if n == 0 {
            (self, true)
        } else {
            let before = self.kestrels_added(z, (n - 1) as nat);
            if before.1 {
                before.0.kestrel_added(z)
            } else {
                before
            }
        }
    }

    /// The world after one item was laid on floor `z`, and whether the
    /// search for its cell found one. The two top bits of a draw choose the
    /// kind.
    pub open spec fn item_added(self, z: i32) -> (WorldView, bool) {
        let picked = self.floor_picked(z);
        match picked.1 {
            None => (picked.0, false),
            Some(l) => (
                picked.0.with_gen(picked.0.gen.after()).with_items(
                    l,
                    picked.0.items_at(l).push(
                        Item::spec_of_rank((output(picked.0.gen.state) >> 30) as nat),
                    ),
                ),
                true,
            ),
        }
    }

    /// The world after `n` items were laid on floor `z`, or after the
    /// first search that found no cell.
    pub open spec fn items_added(self, z: i32, n: nat) -> (WorldView, bool)
        decreases n,
    {
        if n == 0 {
            (self, true)
        } else {
            let before = self.items_added(z, (n - 1) as nat);
            if before.1 {
                before.0.item_added(z)
            } else {
                before
            }
        }
    }
}

impl GameWorld {
    /// Picks a floor cell of floor `z`: draws a column and a row until
    /// they name a cell of floor. The floor must be one on which 5001 draws
    /// find a floor cell.
    pub fn pick_random_floor(&mut self, z: i32) -> (r: Location)
        requires
            floor_search(old(self)@.terrain, z, old(self).gen.state, FLOOR_TRIES as nat).0 is Some,
        ensures
            (final(self)@, Some(r)) == old(self)@.floor_picked(z),
            r.z == z && 0 <= r.x < GAME_DIMENSIONS && 0 <= r.y < GAME_DIMENSIONS && old(
                self,
            )@.terrain_at(r) == Terrain::Floor,
            old(self).wf() ==> final(self).wf(),
    {
        match self.search_random_floor(z) {
            Some(l) => l,
            None => Location { x: 0, y: 0, z },
        }
    }

    /// Searches for a floor cell on floor `z`: draws a column and a row
    /// until they name a cell of floor, 5001 times at most. Says so if
    /// none of the draws did.
    pub fn search_random_floor(&mut self, z: i32) -> (r: Option<Location>)
        ensures
            (final(self)@, r) == old(self)@.floor_picked(z),
            r matches Some(l) ==> l.z == z && 0 <= l.x < GAME_DIMENSIONS && 0 <= l.y
                < GAME_DIMENSIONS && old(self)@.terrain_at(l) == Terrain::Floor,
            old(self).wf() ==> final(self).wf(),
    {
        proof {
            if self.wf() {
                self@.lemma_frame(self@.floor_picked(z).0);
            }
        }
        let mut tries: usize = FLOOR_TRIES;
        let ghost start = self.gen.state;
        proof {
            lemma_floor_search_finds(self@.terrain, z, start, FLOOR_TRIES as nat);
        }
        loop
            invariant
                start == old(self).gen.state,
                self@ == old(self)@.with_gen(self.gen),
                old(self).wf() ==> old(self)@.floor_picked(z).0.wf(),
                floor_search(self@.terrain, z, self.gen.state, tries as nat) == floor_search(
                    self@.terrain,
                    z,
                    start,
                    FLOOR_TRIES as nat,
                ),
            decreases tries,
        {
            proof {
                lemma_floor_search_step(self@.terrain, z, self.gen.state, tries as nat);
            }
            let x = self.gen.roll(0, (GAME_DIMENSIONS - 1) as u32);
            let y = self.gen.roll(0, (GAME_DIMENSIONS - 1) as u32);
            let l = Location { x: x as i32, y: y as i32, z };
            assert(self@ =~= old(self)@.with_gen(self.gen));
            match self.terrain_at(l) {
                Terrain::Floor => {
                    return Some(l);
                },
                _ => {},
            }
            if tries == 0 {
                return None;
            }
            tries = tries - 1;
        }
    }

    /// Lays the cave `cave` out as floor `z`: its walls become wall and
    /// its open cells floor.
    pub(crate) fn lay_floor(&mut self, cave: &CaveGrid, z: i32)
        requires
            cave.is_shaped(GAME_DIMENSIONS as int, GAME_DIMENSIONS as int),
        ensures
            final(self)@ == old(self)@.laid(
                cave@,
                z,
                (GAME_DIMENSIONS * GAME_DIMENSIONS) as nat,
            ),
            final(self).next_creature_id == old(self).next_creature_id,
    {
        let mut y: usize = 0;
        while y < GAME_DIMENSIONS
            invariant
                y <= GAME_DIMENSIONS,
                self.next_creature_id == old(self).next_creature_id,
                cave.is_shaped(GAME_DIMENSIONS as int, GAME_DIMENSIONS as int),
                self@ == old(self)@.laid(cave@, z, (y * GAME_DIMENSIONS) as nat),
            decreases GAME_DIMENSIONS - y,
        {
            let mut x: usize = 0;
            while x < GAME_DIMENSIONS
                invariant
                    x <= GAME_DIMENSIONS,
                    y < GAME_DIMENSIONS,
                    self.next_creature_id == old(self).next_creature_id,
                    cave.is_shaped(GAME_DIMENSIONS as int, GAME_DIMENSIONS as int),
                    self@ == old(self)@.laid(cave@, z, (y * GAME_DIMENSIONS + x) as nat),
                decreases GAME_DIMENSIONS - x,
            {
                let l = Location { x: x as i32, y: y as i32, z };
                assert(l == numbered_cell(y * GAME_DIMENSIONS + x, z));
                assert(cave@[y as int].len() == GAME_DIMENSIONS);
                let terrain = if cave.rows[y][x] {
                    Terrain::Wall
                } else {
                    Terrain::Floor
                };
                self.set_terrain(l, terrain);
                x = x + 1;
            }
            y = y + 1;
        }
    }

    /// Tries to put a kestrel on floor `z`.
    pub(crate) fn add_kestrel(&mut self, z: i32) -> (r: bool)
        requires
            old(self).next_creature_id < usize::MAX,
        ensures
            (final(self)@, r) == old(self)@.kestrel_added(z),
    {
        let monster = Creature::new_kestrel(self.next_creature_id);
        self.next_creature_id = self.next_creature_id + 1;
        assert(self@ =~= old(self)@.numbered());
        match self.search_random_floor(z) {
            None => false,
            Some(l) => {
                match self.occupant(l) {
                    Some(_) => {},
                    None => {
                        self.join(monster, l);
                    },
                }
                true
            },
        }
    }

    /// Lays one item on floor `z`.
    pub(crate) fn add_item(&mut self, z: i32) -> (r: bool)
        ensures
            (final(self)@, r) == old(self)@.item_added(z),
    {
        match self.search_random_floor(z) {
            None => false,
            Some(l) => {
                let ghost picked = self@;
                let raw = self.gen.next_u32();
                let bits = raw >> 30;
                assert(bits < 4) by (bit_vector)
                    requires
                        bits == raw >> 30,
                ;
                let kind = Item::of_rank(bits as usize);
                assert(self@ =~= picked.with_gen(picked.gen.after()));
                self.drop_item(l, kind);
                true
            },
        }
    }
}

/// Whether the cave has room for stairs at the anchor: the cell in the
/// column and row of `anchor` and the four cells beside it are open. A cave
/// without an anchor always has.
pub open spec fn anchor_fits(plan: Plan, anchor: Option<Location>) -> bool {
    match anchor {
        None => true,
        Some(s) => {
            &&& open_cell(plan, s.x as int, s.y as int)
            &&& open_cell(plan, s.x + 1, s.y as int)
            &&& open_cell(plan, s.x - 1, s.y as int)
            &&& open_cell(plan, s.x as int, s.y + 1)
            &&& open_cell(plan, s.x as int, s.y - 1)
        },
    }
}

/// Whether any cave at all could have room at the anchor: the cell and
/// the four beside it must lie on the grid of a floor.
pub open spec fn anchor_possible(anchor: Option<Location>) -> bool {
    match anchor {
        None => true,
        Some(s) => 1 <= s.x < GAME_DIMENSIONS - 1 && 1 <= s.y < GAME_DIMENSIONS - 1,
    }
}

/// The first cave, among up to `budget` caves made one after the other,
/// that has room at the anchor, and the state of the generator after its
/// making. There is none if the making of a cave gives up.
#[verifier::opaque]
pub open spec fn anchored_cave(state: u64, anchor: Option<Location>, budget: nat) -> (
    Option<Plan>,
    u64,
)
    decreases budget,
{
    if budget == 0 {
        (None, state)
    } else {
        let made = caves_from(
            GAME_DIMENSIONS as int,
            GAME_DIMENSIONS as int,
            state,
            CAVE_ATTEMPTS as nat,
        );
        match made.0 {
            None => (None, made.1),
            Some(plan) => if anchor_fits(plan, anchor) {
                made
            } else {
                anchored_cave(made.1, anchor, (budget - 1) as nat)
            },
        }
    }
}

/// The making of a cave with room at the anchor, one cave unfolded.
pub proof fn lemma_anchored_cave_step(state: u64, anchor: Option<Location>, budget: nat)
    ensures
        anchored_cave(state, anchor, budget) == {
            let made = caves_from(
                GAME_DIMENSIONS as int,
                GAME_DIMENSIONS as int,
                state,
                CAVE_ATTEMPTS as nat,
            );
            if budget == 0 {
                (None::<Plan>, state)
            } else if made.0 is None {
                (None::<Plan>, made.1)
            } else if anchor_fits(made.0->0, anchor) {
                made
            } else {
                anchored_cave(made.1, anchor, (budget - 1) as nat)
            }
        },
{
    reveal(anchored_cave);
}

/// A cave that `anchored_cave` yields has room at the anchor, and is a
/// cave: half open, and all in one piece.
pub proof fn lemma_anchored_cave(state: u64, anchor: Option<Location>, budget: nat)
    requires
        anchored_cave(state, anchor, budget).0 is Some,
    ensures
        anchor_fits(anchored_cave(state, anchor, budget).0->0, anchor),
        crate::caves::shaped(
            anchored_cave(state, anchor, budget).0->0,
            GAME_DIMENSIONS as int,
            GAME_DIMENSIONS as int,
        ),
        crate::caves::all_linked(anchored_cave(state, anchor, budget).0->0),
        crate::caves::open_count(anchored_cave(state, anchor, budget).0->0) >= (GAME_DIMENSIONS
            * GAME_DIMENSIONS) / 2,
    decreases budget,
{
    lemma_anchored_cave_step(state, anchor, budget);
    let made = caves_from(
        GAME_DIMENSIONS as int,
        GAME_DIMENSIONS as int,
        state,
        CAVE_ATTEMPTS as nat,
    );
    if budget > 0 && made.0 is Some {
        if anchor_fits(made.0->0, anchor) {
            crate::caves::lemma_caves_are_caves(
                GAME_DIMENSIONS as int,
                GAME_DIMENSIONS as int,
                state,
                CAVE_ATTEMPTS as nat,
            );
        } else {
            lemma_anchored_cave(made.1, anchor, (budget - 1) as nat);
        }
    }
}

/// What the making of a floor answers: nothing if all went well.
pub open spec fn failure(r: Result<(), BuildError>) -> Option<BuildError> {
    match r {
        Ok(_) => None,
        Err(e) => Some(e),
    }
}

impl WorldView {
    /// The world with one floor more.
    pub open spec fn deepened(self) -> WorldView {
        WorldView { deepest_depth: (self.deepest_depth - 1) as i32, ..self }
    }

    /// The world with stairs up on the deepest floor, in the column and
    /// row of the anchor, if there is one.
    pub open spec fn with_stairs_up(self, anchor: Option<Location>) -> WorldView {
        match anchor {
            Some(s) => self.with_terrain(
                Location { x: s.x, y: s.y, z: self.deepest_depth },
                Terrain::StairsUp,
            ),
            None => self,
        }
    }

    /// The world after stairs down were put on a floor cell of the deepest
    /// floor, and whether the search for the cell found one.
    pub open spec fn stairs_down_added(self) -> (WorldView, bool) {
        let picked = self.floor_picked(self.deepest_depth);
        match picked.1 {
            Some(l) => (picked.0.with_terrain(l, Terrain::StairsDown), true),
            None => (picked.0, false),
        }
    }

    /// The steps of the furnishing of the deepest floor: the world after
    /// it got its stairs down, its monsters and its items, or after the
    /// first search for a floor cell that found none; and what went wrong,
    /// if anything.
    pub open spec fn furnished(self) -> (WorldView, Option<BuildError>) {
        let stairs = self.stairs_down_added();
        if !stairs.1 {
            (stairs.0, Some(BuildError::NoFloor))
        } else {
            let monsters = stairs.0.kestrels_added(self.deepest_depth, MONSTERS_PER_FLOOR as nat);
            if !monsters.1 {
                (monsters.0, Some(BuildError::NoFloor))
            } else {
                let items = monsters.0.items_added(self.deepest_depth, ITEMS_PER_FLOOR as nat);
                (
                    items.0,
                    if items.1 {
                        None
                    } else {
                        Some(BuildError::NoFloor)
                    },
                )
            }
        }
    }

    /// The steps of the making of one floor more, below the deepest: the
    /// world that they leave, and what went wrong, if anything. Where no cave
    /// can be had nothing changes but the generator. Else the cave becomes
    /// the new deepest floor, with stairs up at the anchor, and the floor is
    /// furnished as far as the searches for floor cells find some.
    pub open spec fn layer_built(self, anchor: Option<Location>) -> (WorldView, Option<BuildError>) {
        if !anchor_possible(anchor) {
            (self, Some(BuildError::NoCave))
        } else {
            let made = anchored_cave(self.gen.state, anchor, LAYER_ATTEMPTS as nat);
            let w = self.with_gen(PCG32 { state: made.1 });
            match made.0 {
                None => (w, Some(BuildError::NoCave)),
                Some(plan) => w.deepened().laid(
                    plan,
                    (self.deepest_depth - 1) as i32,
                    (GAME_DIMENSIONS * GAME_DIMENSIONS) as nat,
                ).with_stairs_up(anchor).furnished(),
            }
        }
    }

    /// The world after the furnishing of the deepest floor was tried, and
    /// what went wrong, if anything. The floor is furnished wholly or not
    /// at all: where a search for a floor cell finds none, nothing changes
    /// but the generator.
    pub open spec fn floor_furnished(self) -> (WorldView, Option<BuildError>) {
        let done = self.furnished();
        if done.1 is Some {
            (self.with_gen(done.0.gen), done.1)
        } else {
            done
        }
    }

    /// The world after the making of one floor more, below the deepest,
    /// was tried, and what went wrong, if anything. The floor is made wholly
    /// or not at all: where no cave can be had, or a search for a floor cell
    /// finds none, nothing changes but the generator. Else the cave is the
    /// new deepest floor, with stairs up at the anchor, stairs down, its
    /// monsters and its items.
    pub open spec fn layer_added(self, anchor: Option<Location>) -> (WorldView, Option<BuildError>) {
        let built = self.layer_built(anchor);
        if built.1 is Some {
            (self.with_gen(built.0.gen), built.1)
        } else {
            built
        }
    }
}

impl GameWorld {
    /// Makes caves until one has room at the anchor.
    pub fn anchored_cave(&mut self, anchor: Option<Location>) -> (r: Option<CaveGrid>)
        ensures
            anchored_cave(old(self).gen.state, anchor, LAYER_ATTEMPTS as nat) == (
                match r {
                    Some(cave) => Some(cave@),
                    None => None,
                },
                final(self).gen.state,
            ),
            final(self)@ == old(self)@.with_gen(final(self).gen),
            r matches Some(cave) ==> cave.is_shaped(GAME_DIMENSIONS as int, GAME_DIMENSIONS as int),
    {
        let mut left: usize = LAYER_ATTEMPTS;
        let ghost start = self.gen.state;
        assert(self@ =~= old(self)@.with_gen(self.gen));
        while left > 0
            invariant
                start == old(self).gen.state,
                self@ == old(self)@.with_gen(self.gen),
                anchored_cave(self.gen.state, anchor, left as nat) == anchored_cave(
                    start,
                    anchor,
                    LAYER_ATTEMPTS as nat,
                ),
            decreases left,
        {
            proof {
                lemma_anchored_cave_step(self.gen.state, anchor, left as nat);
            }
            let made = make_cellular_caves(GAME_DIMENSIONS, GAME_DIMENSIONS, &mut self.gen);
            assert(self@ =~= old(self)@.with_gen(self.gen));
            match made {
                None => {
                    return None;
                },
                Some(cave) => {
                    let fits = match anchor {
                        None => true,
                        Some(s) => {
                            let x = s.x as i64;
                            let y = s.y as i64;
                            !cave.is_wall(x, y) && !cave.is_wall(x + 1, y) && !cave.is_wall(
                                x - 1,
                                y,
                            ) && !cave.is_wall(x, y + 1) && !cave.is_wall(x, y - 1)
                        },
                    };
                    if fits {
                        return Some(cave);
                    }
                },
            }
            left = left - 1;
        }
        proof {
            lemma_anchored_cave_step(self.gen.state, anchor, 0);
        }
        None
    }

    /// Puts the world back as `before` was, but for the generator, after
    /// steps that added creatures at the end of the list and changed the
    /// maps, of which `occupancy`, `items` and `terrain` are copies made
    /// before.
    fn put_back(
        &mut self,
        creatures: usize,
        next_creature_id: usize,
        deepest_depth: i32,
        occupancy: HashMap<u128, CreatureID>,
        items: HashMap<u128, Vec<Item>>,
        terrain: HashMap<u128, Terrain>,
        Ghost(before): Ghost<WorldView>,
    )
        requires
            grown_from(before, old(self)@),
            creatures == before.creatures.len(),
            next_creature_id == before.next_creature_id,
            deepest_depth == before.deepest_depth,
            occupancy@ == before.occupancy,
            crate::world::stacks(items@) == before.items,
            terrain@ == before.terrain,
        ensures
            final(self)@ == before.with_gen(old(self).gen),
    {
        self.creature_list.truncate(creatures);
        self.creature_cells.truncate(creatures);
        self.next_creature_id = next_creature_id;
        self.deepest_depth = deepest_depth;
        self.creature_locations = occupancy;
        self.item_locations = items;
        self.terrain = terrain;
        proof {
            assert forall|i: int| 0 <= i < creatures implies self@.creatures[i]
                == before.creatures[i] && self@.cells[i] == before.cells[i] by {
                assert(old(self)@.creatures[i] == before.creatures[i]);
            }
            assert(self@.creatures =~= before.creatures);
            assert(self@.cells =~= before.cells);
            assert(self@ =~= before.with_gen(old(self).gen));
        }
    }

    /// Gives the deepest floor its stairs down, its monsters and its
    /// items, wholly or not at all.
    pub fn furnish(&mut self) -> (r: Result<(), BuildError>)
        requires
            old(self).wf(),
            old(self).next_creature_id <= usize::MAX - MONSTERS_PER_FLOOR,
        ensures
            (final(self)@, failure(r)) == old(self)@.floor_furnished(),
            final(self).wf(),
    {
        proof {
            self@.lemma_player();
            assert(self@.creatures[self@.player_index()].id.0 < self@.next_creature_id);
            lemma_furnished(self@);
            self@.lemma_frame(self@.with_gen(self@.furnished().0.gen));
        }
        let creatures = self.creature_list.len();
        let next_creature_id = self.next_creature_id;
        let deepest_depth = self.deepest_depth;
        let occupancy = self.creature_locations.clone();
        let items = self.item_locations.clone();
        let terrain = self.terrain.clone();
        match self.furnish_floor() {
            Ok(_) => Ok(()),
            Err(e) => {
                self.put_back(
                    creatures,
                    next_creature_id,
                    deepest_depth,
                    occupancy,
                    items,
                    terrain,
                    Ghost(old(self)@),
                );
                Err(e)
            },
        }
    }

    /// Gives the deepest floor its stairs down, its monsters and its
    /// items, whether somebody plays in the world yet or not.
    pub(crate) fn furnish_floor(&mut self) -> (r: Result<(), BuildError>)
        requires
            old(self).next_creature_id <= usize::MAX - MONSTERS_PER_FLOOR,
        ensures
            (final(self)@, failure(r)) == old(self)@.furnished(),
    {
        let z = self.deepest_depth;
        match self.search_random_floor(z) {
            None => {
                return Err(BuildError::NoFloor);
            },
            Some(l) => {
                self.set_terrain(l, Terrain::StairsDown);
            },
        }
        let ghost stairs = self@;
        let mut n: usize = 0;
        while n < MONSTERS_PER_FLOOR
            invariant
                n <= MONSTERS_PER_FLOOR,
                z == old(self).deepest_depth,
                stairs == old(self)@.stairs_down_added().0,
                old(self)@.stairs_down_added().1,
                (self@, true) == stairs.kestrels_added(z, n as nat),
                self.next_creature_id <= usize::MAX - MONSTERS_PER_FLOOR + n,
            decreases MONSTERS_PER_FLOOR - n,
        {
            let ok = self.add_kestrel(z);
            if !ok {
                proof {
                    lemma_kestrels_stay_failed(stairs, z, (n + 1) as nat, MONSTERS_PER_FLOOR as nat);
                }
                return Err(BuildError::NoFloor);
            }
            n = n + 1;
        }
        let ghost monsters = self@;
        let mut n: usize = 0;
        while n < ITEMS_PER_FLOOR
            invariant
                n <= ITEMS_PER_FLOOR,
                z == old(self).deepest_depth,
                stairs == old(self)@.stairs_down_added().0,
                old(self)@.stairs_down_added().1,
                (monsters, true) == stairs.kestrels_added(z, MONSTERS_PER_FLOOR as nat),
                (self@, true) == monsters.items_added(z, n as nat),
            decreases ITEMS_PER_FLOOR - n,
        {
            let ok = self.add_item(z);
            if !ok {
                proof {
                    lemma_items_stay_failed(monsters, z, (n + 1) as nat, ITEMS_PER_FLOOR as nat);
                }
                return Err(BuildError::NoFloor);
            }
            n = n + 1;
        }
        Ok(())
    }
}

/// Once a search found no cell, later tries change nothing.
pub proof fn lemma_kestrels_stay_failed(w: WorldView, z: i32, n: nat, m: nat)
    requires
        !w.kestrels_added(z, n).1,
        n <= m,
    ensures
        w.kestrels_added(z, m) == w.kestrels_added(z, n),
    decreases m,
{
    if n < m {
        lemma_kestrels_stay_failed(w, z, n, (m - 1) as nat);
    }
}

/// Once a search found no cell, later tries change nothing.
pub proof fn lemma_items_stay_failed(w: WorldView, z: i32, n: nat, m: nat)
    requires
        !w.items_added(z, n).1,
        n <= m,
    ensures
        w.items_added(z, m) == w.items_added(z, n),
    decreases m,
{
    if n < m {
        lemma_items_stay_failed(w, z, n, (m - 1) as nat);
    }
}

impl GameWorld {
    /// Makes one floor more, below the deepest. With `down_stairs`, the
    /// stairs on the deepest floor that lead down, the new floor is a cave
    /// in which the cell below the stairs and the four cells beside it are
    /// open, and stairs up stand on that cell. The floor then gets stairs
    /// down, up to 25 kestrels and 50 items, each on a floor cell found by
    /// search. The floor is made wholly or not at all: where no cave can be
    /// had, or a search finds no floor cell, nothing changes but the
    /// generator.
    pub fn add_z_layer(&mut self, down_stairs: Option<Location>) -> (r: Result<(), BuildError>)
        requires
            old(self).wf(),
            old(self).deepest_depth > i32::MIN,
            old(self).next_creature_id <= usize::MAX - MONSTERS_PER_FLOOR,
            down_stairs matches Some(s) ==> s.z == old(self).deepest_depth,
        ensures
            (final(self)@, failure(r)) == old(self)@.layer_added(down_stairs),
            final(self).wf(),
    {
        proof {
            self@.lemma_player();
            assert(self@.creatures[self@.player_index()].id.0 < self@.next_creature_id);
        }
        self.add_layer(down_stairs)
    }

    /// Makes one floor more, below the deepest, wholly or not at all,
    /// whether somebody plays in the world yet or not.
    pub(crate) fn add_layer(&mut self, down_stairs: Option<Location>) -> (r: Result<
        (),
        BuildError,
    >)
        requires
            old(self)@.consistent(),
            old(self).deepest_depth > i32::MIN,
            old(self).next_creature_id <= usize::MAX - MONSTERS_PER_FLOOR,
            old(self).next_creature_id > PLAYER_ID,
            old(self).deepest_depth <= 1,
            down_stairs matches Some(s) ==> s.z == old(self).deepest_depth,
        ensures
            (final(self)@, failure(r)) == old(self)@.layer_added(down_stairs),
            final(self)@.consistent(),
            old(self).wf() ==> final(self).wf(),
    {
        proof {
            lemma_layer_built(self@, down_stairs);
            lemma_layer_added(self@, down_stairs);
        }
        let possible = match down_stairs {
            None => true,
            Some(s) => 1 <= s.x && s.x < GAME_DIMENSIONS as i32 - 1 && 1 <= s.y && s.y
                < GAME_DIMENSIONS as i32 - 1,
        };
        if !possible {
            return Err(BuildError::NoCave);
        }
        match self.anchored_cave(down_stairs) {
            None => Err(BuildError::NoCave),
            Some(cave) => {
                let ghost before = self@;
                let creatures = self.creature_list.len();
                let next_creature_id = self.next_creature_id;
                let deepest_depth = self.deepest_depth;
                let occupancy = self.creature_locations.clone();
                let items = self.item_locations.clone();
                let terrain = self.terrain.clone();
                self.deepest_depth = self.deepest_depth - 1;
                assert(self@ =~= old(self)@.with_gen(self.gen).deepened());
                self.lay_floor(&cave, self.deepest_depth);
                match down_stairs {
                    Some(s) => {
                        self.set_terrain(
                            Location { x: s.x, y: s.y, z: self.deepest_depth },
                            Terrain::StairsUp,
                        );
                    },
                    None => {},
                }
                match self.furnish_floor() {
                    Ok(_) => Ok(()),
                    Err(e) => {
                        proof {
                            assert(grown_from(before, self@)) by {
                                assert forall|i: int|
                                    0 <= i < before.creatures.len() implies (
                                #[trigger] self@.creatures[i]) == before.creatures[i]
                                    && self@.cells[i] == before.cells[i] by {
                                    assert(self@.creatures[i] == old(self)@.creatures[i]);
                                }
                                assert forall|i: int|
                                    before.creatures.len() <= i
                                        < self@.creatures.len() implies (
                                #[trigger] self@.creatures[i]).id.0 >= before.next_creature_id
                                    && self@.cells[i].z == self@.deepest_depth by {}
                                assert forall|l: Location|
                                    l.z > self@.deepest_depth implies #[trigger] cell(
                                    self@.terrain,
                                    l,
                                ) == cell(before.terrain, l) by {
                                    assert(cell(self@.terrain, l) == cell(old(self)@.terrain, l));
                                }
                            }
                        }
                        self.put_back(
                            creatures,
                            next_creature_id,
                            deepest_depth,
                            occupancy,
                            items,
                            terrain,
                            Ghost(before),
                        );
                        assert(self@ =~= old(self)@.with_gen(self.gen));
                        Err(e)
                    },
                }
            },
        }
    }
}

/// What the making of a floor keeps: the player's place, the creatures
/// there were, in their places of the list, and the terrain of the floors
/// above. Whoever is new stands on the deepest floor, behind all who were
/// there, with an identifier that was not handed out before and is greater
/// than that of everybody before it in the list.
pub open spec fn grown_from(before: WorldView, after: WorldView) -> bool {
    &&& after.player_location == before.player_location
    &&& before.next_creature_id <= after.next_creature_id
    &&& before.creatures.len() <= after.creatures.len()
    &&& after.cells.len() == after.creatures.len()
    &&& before.cells.len() == before.creatures.len()
    &&& forall|i: int|
        0 <= i < before.creatures.len() ==> (#[trigger] after.creatures[i]) == before.creatures[i]
            && after.cells[i] == before.cells[i]
    &&& forall|i: int|
        before.creatures.len() <= i < after.creatures.len() ==> (#[trigger] after.creatures[i]).id.0
            >= before.next_creature_id && after.cells[i].z == after.deepest_depth
    &&& forall|i: int, j: int|
        0 <= i < j < after.creatures.len() && before.creatures.len() <= j ==> (
        #[trigger] after.creatures[i]).id.0 < (#[trigger] after.creatures[j]).id.0
    &&& forall|l: Location|
        l.z > after.deepest_depth ==> #[trigger] cell(after.terrain, l) == cell(before.terrain, l)
}

/// What the furnishing of a floor keeps of its terrain: a cell stays what
/// it was, but that one floor cell becomes the stairs down.
pub open spec fn terrain_kept(before: WorldView, after: WorldView) -> bool {
    forall|l: Location| #[trigger]
        cell(after.terrain, l) == cell(before.terrain, l) || (cell(before.terrain, l)
            == Terrain::Floor && cell(after.terrain, l) == Terrain::StairsDown)
}

/// The search for a floor cell changes the generator alone, and what it
/// finds is a floor cell of the floor asked for.
pub proof fn lemma_floor_picked(w: WorldView, z: i32)
    requires
        w.consistent(),
    ensures
        w.floor_picked(z).0.consistent(),
        w.floor_picked(z).0 == w.with_gen(w.floor_picked(z).0.gen),
        w.floor_picked(z).1 matches Some(l) ==> l.z == z && 0 <= l.x < GAME_DIMENSIONS && 0 <= l.y
            < GAME_DIMENSIONS && cell(w.terrain, l) == Terrain::Floor,
{
    lemma_floor_search_finds(w.terrain, z, w.gen.state, FLOOR_TRIES as nat);
    lemma_gen_consistent(w, w.floor_picked(z).0.gen);
}

/// Another generator leaves a consistent world consistent.
pub proof fn lemma_gen_consistent(w: WorldView, gen: PCG32)
    requires
        w.consistent(),
    ensures
        w.with_gen(gen).consistent(),
        w.has_id(CreatureID(PLAYER_ID)) ==> w.with_gen(gen).has_id(CreatureID(PLAYER_ID)),
{
    w.lemma_frame(w.with_gen(gen));
}

/// Items on a cell leave a consistent world consistent.
pub proof fn lemma_items_consistent(w: WorldView, l: Location, stack: Seq<Item>)
    requires
        w.consistent(),
    ensures
        w.with_items(l, stack).consistent(),
        w.has_id(CreatureID(PLAYER_ID)) ==> w.with_items(l, stack).has_id(CreatureID(PLAYER_ID)),
{
    w.lemma_frame(w.with_items(l, stack));
}

/// Laying a cave out on a floor where nobody stands keeps the world
/// consistent; the cells of the floor become the tiles of the cave, and
/// every other cell stays what it was.
pub proof fn lemma_laid(w: WorldView, plan: Plan, z: i32, n: nat)
    requires
        w.consistent(),
        forall|i: int| 0 <= i < w.cells.len() ==> (#[trigger] w.cells[i]).z != z,
        n <= GAME_DIMENSIONS * GAME_DIMENSIONS,
    ensures
        w.laid(plan, z, n).consistent(),
        w.has_id(CreatureID(PLAYER_ID)) ==> w.laid(plan, z, n).has_id(CreatureID(PLAYER_ID)),
        w.laid(plan, z, n) == (WorldView { terrain: w.laid(plan, z, n).terrain, ..w }),
        forall|l: Location|
            l.z != z ==> #[trigger] cell(w.laid(plan, z, n).terrain, l) == cell(w.terrain, l),
        forall|x: int, y: int|
            0 <= x < GAME_DIMENSIONS && 0 <= y < GAME_DIMENSIONS && y * GAME_DIMENSIONS + x < n
                ==> #[trigger] cell(
                w.laid(plan, z, n).terrain,
                Location { x: x as i32, y: y as i32, z },
            ) == tile(plan, x, y),
    decreases n,
{
    if n > 0 {
        let v = w.laid(plan, z, (n - 1) as nat);
        lemma_laid(w, plan, z, (n - 1) as nat);
        let l = numbered_cell(n - 1, z);
        let t = tile(plan, l.x as int, l.y as int);
        assert(!v.occupied(l)) by {
            if v.occupied(l) {
                let i = v.lemma_occupant(l);
                assert(w.cells[i].z != z);
            }
        }
        v.lemma_with_terrain(l, t);
        let u = v.with_terrain(l, t);
        assert forall|l2: Location| l2.z != z implies #[trigger] cell(u.terrain, l2) == cell(
            w.terrain,
            l2,
        ) by {
            Location::lemma_key_injective(l2, l);
            assert(cell(v.terrain, l2) == cell(w.terrain, l2));
        }
        assert forall|x: int, y: int|
            0 <= x < GAME_DIMENSIONS && 0 <= y < GAME_DIMENSIONS && y * GAME_DIMENSIONS + x
                < n implies #[trigger] cell(u.terrain, Location { x: x as i32, y: y as i32, z })
            == tile(plan, x, y) by {
            let l2 = Location { x: x as i32, y: y as i32, z };
            Location::lemma_key_injective(l2, l);
            if y * GAME_DIMENSIONS + x < n - 1 {
                assert(cell(v.terrain, l2) == tile(plan, x, y));
                assert(l2 != l);
            } else {
                assert(l2 == l);
            }
        }
    }
}

/// What the making of a floor keeps, it keeps over any number of steps.
pub proof fn lemma_grown_chain(a: WorldView, b: WorldView, c: WorldView)
    requires
        grown_from(a, b),
        grown_from(b, c),
        b.deepest_depth == c.deepest_depth,
    ensures
        grown_from(a, c),
{
    assert forall|i: int| 0 <= i < a.creatures.len() implies (#[trigger] c.creatures[i])
        == a.creatures[i] && c.cells[i] == a.cells[i] by {
        assert(b.creatures[i] == a.creatures[i]);
    }
    assert forall|i: int| a.creatures.len() <= i < c.creatures.len() implies (
    #[trigger] c.creatures[i]).id.0 >= a.next_creature_id && c.cells[i].z == c.deepest_depth by {
        if i < b.creatures.len() {
            assert(c.creatures[i] == b.creatures[i]);
            assert(b.creatures[i].id.0 >= a.next_creature_id);
        }
    }
    assert forall|i: int, j: int|
        0 <= i < j < c.creatures.len() && a.creatures.len() <= j implies (
    #[trigger] c.creatures[i]).id.0 < (#[trigger] c.creatures[j]).id.0 by {
        if j < b.creatures.len() {
            assert(c.creatures[j] == b.creatures[j]);
            assert(c.creatures[i] == b.creatures[i]);
            assert(b.creatures[i].id.0 < b.creatures[j].id.0);
        }
    }
    assert forall|l: Location| l.z > c.deepest_depth implies #[trigger] cell(c.terrain, l) == cell(
        a.terrain,
        l,
    ) by {
        assert(cell(b.terrain, l) == cell(a.terrain, l));
    }
}

/// A try to put a kestrel on the deepest floor keeps the world
/// consistent, its creatures in place and its terrain as it is, and hands
/// out one identifier.
pub proof fn lemma_kestrel_added(w: WorldView, z: i32)
    requires
        w.consistent(),
        w.next_creature_id < usize::MAX,
        w.next_creature_id > PLAYER_ID,
        z == w.deepest_depth,
        z <= 0,
    ensures
        w.kestrel_added(z).0.consistent(),
        w.has_id(CreatureID(PLAYER_ID)) ==> w.kestrel_added(z).0.has_id(CreatureID(PLAYER_ID)),
        grown_from(w, w.kestrel_added(z).0),
        w.kestrel_added(z).0.next_creature_id == w.next_creature_id + 1,
        w.kestrel_added(z).0.terrain == w.terrain,
        w.kestrel_added(z).0.deepest_depth == w.deepest_depth,
        forall|i: int|
            w.creatures.len() <= i < w.kestrel_added(z).0.creatures.len() ==> cell(
                w.terrain,
                #[trigger] w.kestrel_added(z).0.cells[i],
            ) == Terrain::Floor,
{
    w.lemma_numbered();
    let n = w.numbered();
    lemma_floor_picked(n, z);
    lemma_gen_consistent(n, n.floor_picked(z).0.gen);
    let picked = n.floor_picked(z);
    match picked.1 {
        None => {},
        Some(l) => {
            if !picked.0.occupied(l) {
                let c = Creature::spec_new_kestrel(w.next_creature_id);
                assert(picked.0.is_fresh(c.id)) by {
                    assert forall|i: int| 0 <= i < picked.0.creatures.len() implies (
                    #[trigger] picked.0.creatures[i]).id != c.id by {
                        assert(w.creatures[i].id.0 < w.next_creature_id);
                    }
                }
                picked.0.lemma_joined(c, l);
                let after = picked.0.joined(c, l);
                assert forall|i: int, j: int|
                    0 <= i < j < after.creatures.len() && w.creatures.len() <= j implies (
                #[trigger] after.creatures[i]).id.0 < (#[trigger] after.creatures[j]).id.0 by {
                    assert(after.creatures[i] == w.creatures[i]);
                    assert(w.creatures[i].id.0 < w.next_creature_id);
                }
            }
        },
    }
}

/// Tries to put kestrels on the deepest floor keep the world consistent,
/// its creatures in place and its terrain as it is, and hand out one
/// identifier each at most.
pub proof fn lemma_kestrels_added(w: WorldView, z: i32, n: nat)
    requires
        w.consistent(),
        w.next_creature_id + n <= usize::MAX,
        w.next_creature_id > PLAYER_ID,
        z == w.deepest_depth,
        z <= 0,
    ensures
        w.kestrels_added(z, n).0.consistent(),
        w.has_id(CreatureID(PLAYER_ID)) ==> w.kestrels_added(z, n).0.has_id(CreatureID(PLAYER_ID)),
        grown_from(w, w.kestrels_added(z, n).0),
        w.kestrels_added(z, n).0.next_creature_id <= w.next_creature_id + n,
        w.kestrels_added(z, n).0.terrain == w.terrain,
        w.kestrels_added(z, n).0.deepest_depth == w.deepest_depth,
        forall|i: int|
            w.creatures.len() <= i < w.kestrels_added(z, n).0.creatures.len() ==> cell(
                w.terrain,
                #[trigger] w.kestrels_added(z, n).0.cells[i],
            ) == Terrain::Floor,
    decreases n,
{
    if n > 0 {
        lemma_kestrels_added(w, z, (n - 1) as nat);
        let before = w.kestrels_added(z, (n - 1) as nat);
        if before.1 {
            lemma_kestrel_added(before.0, z);
            lemma_grown_chain(w, before.0, before.0.kestrel_added(z).0);
            let after = before.0.kestrel_added(z).0;
            assert forall|i: int| w.creatures.len() <= i < after.creatures.len() implies cell(
                w.terrain,
                #[trigger] after.cells[i],
            ) == Terrain::Floor by {
                if i < before.0.creatures.len() {
                    assert(after.creatures[i] == before.0.creatures[i]);
                    assert(after.cells[i] == before.0.cells[i]);
                }
            }
        }
    }
}

/// Laying items changes the items and the generator alone.
pub proof fn lemma_items_added(w: WorldView, z: i32, n: nat)
    requires
        w.consistent(),
    ensures
        w.items_added(z, n).0.consistent(),
        w.has_id(CreatureID(PLAYER_ID)) ==> w.items_added(z, n).0.has_id(CreatureID(PLAYER_ID)),
        w.items_added(z, n).0 == (WorldView {
            gen: w.items_added(z, n).0.gen,
            items: w.items_added(z, n).0.items,
            ..w
        }),
    decreases n,
{
    if n > 0 {
        lemma_items_added(w, z, (n - 1) as nat);
        let before = w.items_added(z, (n - 1) as nat);
        if before.1 {
            lemma_floor_picked(before.0, z);
            let picked = before.0.floor_picked(z);
            lemma_gen_consistent(before.0, picked.0.gen);
            match picked.1 {
                None => {},
                Some(l) => {
                    lemma_gen_consistent(picked.0, picked.0.gen.after());
                    lemma_items_consistent(
                        picked.0.with_gen(picked.0.gen.after()),
                        l,
                        picked.0.items_at(l).push(
                            Item::spec_of_rank((output(picked.0.gen.state) >> 30) as nat),
                        ),
                    );
                },
            }
        }
    }
}

/// Furnishing keeps the world consistent and its creatures in place; of
/// the terrain it changes one floor cell, to stairs down.
pub proof fn lemma_furnished(w: WorldView)
    requires
        w.consistent(),
        w.next_creature_id + MONSTERS_PER_FLOOR <= usize::MAX,
        w.next_creature_id > PLAYER_ID,
        w.deepest_depth <= 0,
    ensures
        w.furnished().0.consistent(),
        w.has_id(CreatureID(PLAYER_ID)) ==> w.furnished().0.has_id(CreatureID(PLAYER_ID)),
        grown_from(w, w.furnished().0),
        terrain_kept(w, w.furnished().0),
        w.furnished().0.deepest_depth == w.deepest_depth,
        forall|i: int|
            w.creatures.len() <= i < w.furnished().0.creatures.len() ==> cell(
                w.furnished().0.terrain,
                #[trigger] w.furnished().0.cells[i],
            ) == Terrain::Floor,
{
    let z = w.deepest_depth;
    lemma_floor_picked(w, z);
    let picked = w.floor_picked(z);
    lemma_gen_consistent(w, picked.0.gen);
    let stairs = w.stairs_down_added();
    match picked.1 {
        Some(l) => {
            picked.0.lemma_with_terrain(l, Terrain::StairsDown);
            assert forall|l2: Location| #[trigger]
                cell(stairs.0.terrain, l2) == cell(w.terrain, l2) || (cell(w.terrain, l2)
                    == Terrain::Floor && cell(stairs.0.terrain, l2) == Terrain::StairsDown) by {
                Location::lemma_key_injective(l2, l);
            }
        },
        None => {},
    }
    assert(grown_from(w, stairs.0)) by {
        assert forall|l2: Location| l2.z > stairs.0.deepest_depth implies #[trigger] cell(
            stairs.0.terrain,
            l2,
        ) == cell(w.terrain, l2) by {
            if picked.1 is Some {
                Location::lemma_key_injective(l2, picked.1->0);
            }
        }
    }
    if stairs.1 {
        lemma_kestrels_added(stairs.0, z, MONSTERS_PER_FLOOR as nat);
        let monsters = stairs.0.kestrels_added(z, MONSTERS_PER_FLOOR as nat);
        lemma_grown_chain(w, stairs.0, monsters.0);
        if monsters.1 {
            lemma_items_added(monsters.0, z, ITEMS_PER_FLOOR as nat);
            let items = monsters.0.items_added(z, ITEMS_PER_FLOOR as nat);
            assert(grown_from(monsters.0, items.0));
            lemma_grown_chain(w, monsters.0, items.0);
        }
    }
}

/// The making of a floor keeps the world consistent, and a world in play
/// in play. It keeps the creatures there were; whoever is new has an
/// identifier not handed out before, and stands on the new floor. Where
/// the floor was made below stairs, stairs up stand below them, and none of
/// the four cells beside the stairs up is wall or ice.
pub proof fn lemma_layer_built(w: WorldView, anchor: Option<Location>)
    requires
        w.consistent(),
        w.deepest_depth > i32::MIN,
        w.next_creature_id + MONSTERS_PER_FLOOR <= usize::MAX,
        w.next_creature_id > PLAYER_ID,
        w.deepest_depth <= 1,
        anchor matches Some(s) ==> s.z == w.deepest_depth,
    ensures
        w.layer_built(anchor).0.consistent(),
        w.has_id(CreatureID(PLAYER_ID)) ==> w.layer_built(anchor).0.has_id(CreatureID(PLAYER_ID)),
        grown_from(w, w.layer_built(anchor).0),
        forall|i: int|
            w.creatures.len() <= i < w.layer_built(anchor).0.creatures.len() ==> cell(
                w.layer_built(anchor).0.terrain,
                #[trigger] w.layer_built(anchor).0.cells[i],
            ) == Terrain::Floor,
        w.layer_built(anchor).1 is None ==> w.layer_built(anchor).0.deepest_depth
            == w.deepest_depth - 1,
        w.layer_built(anchor).1 is Some ==> w.layer_built(anchor).0.deepest_depth == w.deepest_depth
            || w.layer_built(anchor).0.deepest_depth == w.deepest_depth - 1,
        w.layer_built(anchor).1 == Some(BuildError::NoCave) ==> w.layer_built(anchor).0
            == w.with_gen(w.layer_built(anchor).0.gen),
        (w.layer_built(anchor).1 != Some(BuildError::NoCave) && anchor is Some) ==> {
            let below = Location {
                x: anchor->0.x,
                y: anchor->0.y,
                z: (anchor->0.z - 1) as i32,
            };
            &&& cell(w.layer_built(anchor).0.terrain, below) == Terrain::StairsUp
            &&& forall|d: int|
                0 <= d < 4 ==> (#[trigger] below.spec_neighbor(d)) is Some && !cell(
                    w.layer_built(anchor).0.terrain,
                    below.spec_neighbor(d)->0,
                ).spec_blocks_step()
        },
{
    if anchor_possible(anchor) {
        let made = anchored_cave(w.gen.state, anchor, LAYER_ATTEMPTS as nat);
        let g = w.with_gen(PCG32 { state: made.1 });
        lemma_gen_consistent(w, PCG32 { state: made.1 });
        match made.0 {
            None => {},
            Some(plan) => {
                lemma_anchored_cave(w.gen.state, anchor, LAYER_ATTEMPTS as nat);
                let z = (w.deepest_depth - 1) as i32;
                let d = g.deepened();
                g.lemma_frame(d);
                assert forall|i: int| 0 <= i < d.cells.len() implies (#[trigger] d.cells[i]).z
                    != z by {
                    assert(g.deepest_depth <= g.cells[i].z <= 0);
                }
                let total = (GAME_DIMENSIONS * GAME_DIMENSIONS) as nat;
                lemma_laid(d, plan, z, total);
                let laid = d.laid(plan, z, total);
                let up = laid.with_stairs_up(anchor);
                match anchor {
                    Some(s) => {
                        laid.lemma_with_terrain(Location { x: s.x, y: s.y, z }, Terrain::StairsUp);
                    },
                    None => {},
                }
                assert(grown_from(w, up)) by {
                    assert forall|l: Location| l.z > up.deepest_depth implies #[trigger] cell(
                        up.terrain,
                        l,
                    ) == cell(w.terrain, l) by {
                        assert(cell(laid.terrain, l) == cell(d.terrain, l));
                        if anchor is Some {
                            Location::lemma_key_injective(
                                l,
                                Location { x: anchor->0.x, y: anchor->0.y, z },
                            );
                        }
                    }
                }
                lemma_furnished(up);
                let done = up.furnished().0;
                lemma_grown_chain(w, up, done);
                match anchor {
                    Some(s) => {
                        let below = Location { x: s.x, y: s.y, z };
                        assert(cell(up.terrain, below) == Terrain::StairsUp);
                        assert(cell(done.terrain, below) == cell(up.terrain, below) || (cell(
                            up.terrain,
                            below,
                        ) == Terrain::Floor && cell(done.terrain, below) == Terrain::StairsDown));
                        assert forall|dir: int| 0 <= dir < 4 implies (
                        #[trigger] below.spec_neighbor(dir)) is Some && !cell(
                            done.terrain,
                            below.spec_neighbor(dir)->0,
                        ).spec_blocks_step() by {
                            let n = below.spec_neighbor(dir)->0;
                            Location::lemma_key_injective(n, below);
                            assert(cell(laid.terrain, Location { x: n.x, y: n.y, z }) == tile(
                                plan,
                                n.x as int,
                                n.y as int,
                            ));
                            assert(cell(done.terrain, n) == cell(up.terrain, n) || (cell(
                                up.terrain,
                                n,
                            ) == Terrain::Floor && cell(done.terrain, n) == Terrain::StairsDown));
                        }
                    },
                    None => {},
                }
            },
        }
    }
}

/// Every floor that is made is a cave: where the making got as far as a
/// cave, the cave is all in one piece and at least half open, and the cells
/// of the new floor are wall exactly where the cave is.
pub proof fn lemma_built_floor_is_cave(w: WorldView, anchor: Option<Location>)
    requires
        w.consistent(),
        w.deepest_depth > i32::MIN,
        w.next_creature_id + MONSTERS_PER_FLOOR <= usize::MAX,
        w.next_creature_id > PLAYER_ID,
        w.deepest_depth <= 1,
        anchor matches Some(s) ==> s.z == w.deepest_depth,
        w.layer_built(anchor).1 != Some(BuildError::NoCave),
    ensures
        anchor_possible(anchor),
        anchored_cave(w.gen.state, anchor, LAYER_ATTEMPTS as nat).0 is Some,
        ({
            let plan = anchored_cave(w.gen.state, anchor, LAYER_ATTEMPTS as nat).0->0;
            let after = w.layer_built(anchor).0;
            &&& crate::caves::shaped(plan, GAME_DIMENSIONS as int, GAME_DIMENSIONS as int)
            &&& crate::caves::all_linked(plan)
            &&& crate::caves::open_count(plan) >= (GAME_DIMENSIONS * GAME_DIMENSIONS) / 2
            &&& anchor_fits(plan, anchor)
            &&& forall|x: int, y: int|
                0 <= x < GAME_DIMENSIONS && 0 <= y < GAME_DIMENSIONS ==> (#[trigger] cell(
                    after.terrain,
                    Location { x: x as i32, y: y as i32, z: (w.deepest_depth - 1) as i32 },
                ) == Terrain::Wall) == plan[y][x]
        }),
{
    let made = anchored_cave(w.gen.state, anchor, LAYER_ATTEMPTS as nat);
    let plan = made.0->0;
    lemma_anchored_cave(w.gen.state, anchor, LAYER_ATTEMPTS as nat);
    let g = w.with_gen(PCG32 { state: made.1 });
    lemma_gen_consistent(w, PCG32 { state: made.1 });
    let z = (w.deepest_depth - 1) as i32;
    let d = g.deepened();
    g.lemma_frame(d);
    assert forall|i: int| 0 <= i < d.cells.len() implies (#[trigger] d.cells[i]).z != z by {
        assert(g.deepest_depth <= g.cells[i].z <= 0);
    }
    let total = (GAME_DIMENSIONS * GAME_DIMENSIONS) as nat;
    lemma_laid(d, plan, z, total);
    let laid = d.laid(plan, z, total);
    let up = laid.with_stairs_up(anchor);
    match anchor {
        Some(s) => {
            laid.lemma_with_terrain(Location { x: s.x, y: s.y, z }, Terrain::StairsUp);
        },
        None => {},
    }
    lemma_furnished(up);
    let done = up.furnished().0;
    assert forall|x: int, y: int| 0 <= x < GAME_DIMENSIONS && 0 <= y < GAME_DIMENSIONS implies (
    #[trigger] cell(done.terrain, Location { x: x as i32, y: y as i32, z }) == Terrain::Wall)
        == plan[y][x] by {
        let l = Location { x: x as i32, y: y as i32, z };
        assert(cell(laid.terrain, l) == tile(plan, x, y));
        if anchor is Some {
            let below = Location { x: anchor->0.x, y: anchor->0.y, z };
            Location::lemma_key_injective(l, below);
        }
        assert(cell(done.terrain, l) == cell(up.terrain, l) || (cell(up.terrain, l) == Terrain::Floor
            && cell(done.terrain, l) == Terrain::StairsDown));
    }
}

/// The making of a floor, tried, keeps the world consistent, and a world
/// in play in play. It keeps the creatures there were; whoever is new has
/// an identifier not handed out before, and stands on the new floor. Where
/// it fails nothing changes but the generator. Where it makes a floor
/// below stairs, stairs up stand below them, and none of the four cells
/// beside the stairs up is wall or ice.
pub proof fn lemma_layer_added(w: WorldView, anchor: Option<Location>)
    requires
        w.consistent(),
        w.deepest_depth > i32::MIN,
        w.next_creature_id + MONSTERS_PER_FLOOR <= usize::MAX,
        w.next_creature_id > PLAYER_ID,
        w.deepest_depth <= 1,
        anchor matches Some(s) ==> s.z == w.deepest_depth,
    ensures
        w.layer_added(anchor).0.consistent(),
        w.has_id(CreatureID(PLAYER_ID)) ==> w.layer_added(anchor).0.has_id(CreatureID(PLAYER_ID)),
        grown_from(w, w.layer_added(anchor).0),
        forall|i: int|
            w.creatures.len() <= i < w.layer_added(anchor).0.creatures.len() ==> cell(
                w.layer_added(anchor).0.terrain,
                #[trigger] w.layer_added(anchor).0.cells[i],
            ) == Terrain::Floor,
        w.layer_added(anchor).1 is None ==> w.layer_added(anchor).0.deepest_depth
            == w.deepest_depth - 1,
        w.layer_added(anchor).1 is Some ==> w.layer_added(anchor).0 == w.with_gen(
            w.layer_added(anchor).0.gen,
        ),
        (w.layer_added(anchor).1 is None && anchor is Some) ==> {
            let below = Location {
                x: anchor->0.x,
                y: anchor->0.y,
                z: (anchor->0.z - 1) as i32,
            };
            &&& cell(w.layer_added(anchor).0.terrain, below) == Terrain::StairsUp
            &&& forall|d: int|
                0 <= d < 4 ==> (#[trigger] below.spec_neighbor(d)) is Some && !cell(
                    w.layer_added(anchor).0.terrain,
                    below.spec_neighbor(d)->0,
                ).spec_blocks_step()
        },
{
    lemma_layer_built(w, anchor);
    let built = w.layer_built(anchor);
    if built.1 is Some {
        lemma_gen_consistent(w, built.0.gen);
        let kept = w.with_gen(built.0.gen);
        assert(grown_from(w, kept)) by {
            assert(kept.cells.len() == kept.creatures.len());
        }
    }
}

/// Every floor that is made is a cave: the cave behind the new floor is
/// all in one piece and at least half open, it has room at the anchor, and
/// the cells of the new floor are wall exactly where the cave is.
pub proof fn lemma_floor_is_cave(w: WorldView, anchor: Option<Location>)
    requires
        w.consistent(),
        w.deepest_depth > i32::MIN,
        w.next_creature_id + MONSTERS_PER_FLOOR <= usize::MAX,
        w.next_creature_id > PLAYER_ID,
        w.deepest_depth <= 1,
        anchor matches Some(s) ==> s.z == w.deepest_depth,
        w.layer_added(anchor).1 is None,
    ensures
        anchor_possible(anchor),
        anchored_cave(w.gen.state, anchor, LAYER_ATTEMPTS as nat).0 is Some,
        ({
            let plan = anchored_cave(w.gen.state, anchor, LAYER_ATTEMPTS as nat).0->0;
            let after = w.layer_added(anchor).0;
            &&& crate::caves::shaped(plan, GAME_DIMENSIONS as int, GAME_DIMENSIONS as int)
            &&& crate::caves::all_linked(plan)
            &&& crate::caves::open_count(plan) >= (GAME_DIMENSIONS * GAME_DIMENSIONS) / 2
            &&& anchor_fits(plan, anchor)
            &&& forall|x: int, y: int|
                0 <= x < GAME_DIMENSIONS && 0 <= y < GAME_DIMENSIONS ==> (#[trigger] cell(
                    after.terrain,
                    Location { x: x as i32, y: y as i32, z: (w.deepest_depth - 1) as i32 },
                ) == Terrain::Wall) == plan[y][x]
        }),
{
    lemma_built_floor_is_cave(w, anchor);
}

/// The column and the row lie on the grid of a floor.
pub open spec fn on_grid(c: (int, int)) -> bool {
    0 <= c.0 < GAME_DIMENSIONS && 0 <= c.1 < GAME_DIMENSIONS
}

/// The cell of floor `z` in the column and row `c`.
pub open spec fn grid_cell(c: (int, int), z: i32) -> Location {
    Location { x: c.0 as i32, y: c.1 as i32, z }
}

/// A walk on the grid of floor `z` over cells that are no wall, each
/// sharing an edge with the next.
pub open spec fn is_floor_walk(t: Map<u128, Terrain>, z: i32, p: Seq<(int, int)>) -> bool {
    &&& p.len() > 0
    &&& forall|i: int|
        0 <= i < p.len() ==> on_grid(#[trigger] p[i]) && cell(t, grid_cell(p[i], z)) != Terrain::Wall
    &&& forall|i: int| 0 <= i < p.len() - 1 ==> crate::caves::beside(#[trigger] p[i], p[i + 1])
}

/// On the grid of floor `z`, from every cell that is no wall a walk over
/// such cells leads to every other.
pub open spec fn floor_linked(t: Map<u128, Terrain>, z: i32) -> bool {
    forall|a: (int, int), b: (int, int)|
        on_grid(a) && on_grid(b) && cell(t, #[trigger] grid_cell(a, z)) != Terrain::Wall && cell(
            t,
            #[trigger] grid_cell(b, z),
        ) != Terrain::Wall ==> exists|p: Seq<(int, int)>| #[trigger]
            is_floor_walk(t, z, p) && p[0] == a && p[p.len() - 1] == b
}

/// On every floor that is made, every cell that is no wall can be reached
/// from every other by steps over such cells of that floor.
pub proof fn lemma_floor_is_linked(w: WorldView, anchor: Option<Location>)
    requires
        w.consistent(),
        w.deepest_depth > i32::MIN,
        w.next_creature_id + MONSTERS_PER_FLOOR <= usize::MAX,
        w.next_creature_id > PLAYER_ID,
        w.deepest_depth <= 1,
        anchor matches Some(s) ==> s.z == w.deepest_depth,
        w.layer_added(anchor).1 is None,
    ensures
        floor_linked(w.layer_added(anchor).0.terrain, (w.deepest_depth - 1) as i32),
{
    lemma_floor_is_cave(w, anchor);
    let plan = anchored_cave(w.gen.state, anchor, LAYER_ATTEMPTS as nat).0->0;
    let t = w.layer_added(anchor).0.terrain;
    let z = (w.deepest_depth - 1) as i32;
    assert forall|a: (int, int), b: (int, int)|
        on_grid(a) && on_grid(b) && cell(t, #[trigger] grid_cell(a, z)) != Terrain::Wall && cell(
            t,
            #[trigger] grid_cell(b, z),
        ) != Terrain::Wall implies exists|p: Seq<(int, int)>| #[trigger]
        is_floor_walk(t, z, p) && p[0] == a && p[p.len() - 1] == b by {
        assert((cell(t, Location { x: a.0 as i32, y: a.1 as i32, z }) == Terrain::Wall)
            == plan[a.1][a.0]);
        assert((cell(t, Location { x: b.0 as i32, y: b.1 as i32, z }) == Terrain::Wall)
            == plan[b.1][b.0]);
        assert(open_cell(plan, a.0, a.1));
        assert(open_cell(plan, b.0, b.1));
        assert(crate::caves::linked(plan, a, b));
        let p = choose|p: Seq<(int, int)>| #[trigger]
            crate::caves::is_walk(plan, p) && p[0] == a && p[p.len() - 1] == b;
        assert forall|i: int| 0 <= i < p.len() implies on_grid(#[trigger] p[i]) && cell(
            t,
            grid_cell(p[i], z),
        ) != Terrain::Wall by {
            assert(open_cell(plan, p[i].0, p[i].1));
            assert((cell(t, Location { x: p[i].0 as i32, y: p[i].1 as i32, z }) == Terrain::Wall)
                == plan[p[i].1][p[i].0]);
        }
        assert(is_floor_walk(t, z, p));
    }
}

/// The world before anything is made: no floor, nobody in it. The first
/// identifier is kept for the player.
pub open spec fn blank(seed: u64) -> WorldView {
    WorldView {
        player_location: Location { x: 0, y: 0, z: 0 },
        next_creature_id: (PLAYER_ID + 1) as usize,
        creatures: Seq::empty(),
        cells: Seq::empty(),
        occupancy: Map::empty(),
        items: Map::empty(),
        terrain: Map::empty(),
        gen: PCG32::spec_new(seed),
        deepest_depth: 1,
    }
}

impl WorldView {
    /// The world without whoever stood on `l`.
    pub open spec fn evicted(self, l: Location) -> WorldView {
        if self.occupied(l) {
            self.without(self.index_of(self.occupancy[l.key()]))
        } else {
            self
        }
    }

    /// The world after the player was put on a floor cell of the deepest
    /// floor, found by search, and whether the search found one. A monster
    /// on that cell makes room.
    pub open spec fn player_placed(self) -> (WorldView, bool) {
        let picked = self.floor_picked(self.deepest_depth);
        match picked.1 {
            None => (picked.0, false),
            Some(l) => (
                (WorldView { player_location: l, ..picked.0.evicted(l) }).joined(
                    Creature::spec_new_player(PLAYER_ID),
                    l,
                ),
                true,
            ),
        }
    }
}

/// The world that `seed` gives, and what went wrong in its making, if
/// anything: the first floor is made and furnished, then the player is put
/// on it.
pub open spec fn created(seed: u64) -> (WorldView, Option<BuildError>) {
    let made = blank(seed).layer_added(None);
    if made.1 is Some {
        made
    } else {
        let placed = made.0.player_placed();
        (
            placed.0,
            if placed.1 {
                None
            } else {
                Some(BuildError::NoFloor)
            },
        )
    }
}

/// Putting the player into a consistent world without a player, in which
/// the player's identifier is free, makes a world in play.
pub proof fn lemma_player_placed(w: WorldView)
    requires
        w.consistent(),
        w.next_creature_id > PLAYER_ID,
        w.deepest_depth <= 0,
        forall|i: int| 0 <= i < w.creatures.len() ==> (#[trigger] w.creatures[i]).id.0 > PLAYER_ID,
    ensures
        w.player_placed().1 ==> w.player_placed().0.wf(),
{
    let z = w.deepest_depth;
    lemma_floor_picked(w, z);
    let picked = w.floor_picked(z);
    match picked.1 {
        None => {},
        Some(l) => {
            let e = picked.0.evicted(l);
            if picked.0.occupied(l) {
                let i = picked.0.lemma_occupant(l);
                picked.0.lemma_without(i);
                assert forall|j: int| 0 <= j < e.creatures.len() implies (
                #[trigger] e.creatures[j]).id.0 > PLAYER_ID by {
                    let j0 = if j < i {
                        j
                    } else {
                        j + 1
                    };
                    assert(e.creatures[j] == picked.0.creatures[j0]);
                    assert(w.creatures[j0].id.0 > PLAYER_ID);
                }
            } else {
                assert forall|j: int| 0 <= j < e.creatures.len() implies (
                #[trigger] e.creatures[j]).id.0 > PLAYER_ID by {
                    assert(w.creatures[j].id.0 > PLAYER_ID);
                }
            }
            let v = WorldView { player_location: l, ..e };
            assert(v.consistent()) by {
                assert forall|k: u128| #[trigger] v.occupancy.contains_key(k) implies exists|
                    j: int,
                |
                    0 <= j < v.cells.len() && (#[trigger] v.cells[j]).key() == k by {
                    assert(e.occupancy.contains_key(k));
                    let j = choose|j: int|
                        0 <= j < e.cells.len() && (#[trigger] e.cells[j]).key() == k;
                    assert(v.cells[j].key() == k);
                }
                assert forall|j: int|
                    0 <= j < v.creatures.len() && (#[trigger] v.creatures[j]).is_the_player implies v.cells[j]
                    == v.player_location by {
                    assert(e.creatures[j].id.0 > PLAYER_ID);
                }
            }
            let c = Creature::spec_new_player(PLAYER_ID);
            assert(v.is_fresh(c.id)) by {
                assert forall|j: int| 0 <= j < v.creatures.len() implies (
                #[trigger] v.creatures[j]).id != c.id by {
                    assert(e.creatures[j].id.0 > PLAYER_ID);
                }
            }
            v.lemma_joined(c, l);
        },
    }
}

impl GameWorld {
    /// Takes whoever stands on `l` out of the world.
    pub(crate) fn evict(&mut self, l: Location)
        requires
            old(self)@.in_sync(),
        ensures
            final(self)@ == old(self)@.evicted(l),
    {
        match self.occupant(l) {
            None => {},
            Some(id) => {
                proof {
                    let i = self@.lemma_occupant(l);
                }
                match self.index_of(id) {
                    Some(i) => {
                        self.remove_creature(i);
                    },
                    None => {},
                }
            },
        }
    }

    /// Makes the world that `seed` gives: one floor of cave with its
    /// stairs down, its monsters and its items, and the player on a floor
    /// cell of it.
    pub fn new(seed: u64) -> (r: Result<GameWorld, BuildError>)
        ensures
            match r {
                Ok(world) => created(seed) == (world@, None::<BuildError>) && world.wf(),
                Err(e) => created(seed).1 == Some(e),
            },
    {
        let mut out = GameWorld {
            player_location: Location { x: 0, y: 0, z: 0 },
            next_creature_id: PLAYER_ID + 1,
            creature_list: Vec::new(),
            creature_cells: Vec::new(),
            creature_locations: HashMap::new(),
            item_locations: HashMap::new(),
            terrain: HashMap::new(),
            gen: PCG32::new(seed),
            deepest_depth: 1,
        };
        assert(out@ =~= blank(seed));
        proof {
            lemma_layer_added(blank(seed), None);
        }
        match out.add_layer(None) {
            Err(e) => {
                return Err(e);
            },
            Ok(_) => {},
        }
        let ghost made = out@;
        proof {
            assert forall|i: int| 0 <= i < made.creatures.len() implies (
            #[trigger] made.creatures[i]).id.0 > PLAYER_ID by {}
            lemma_player_placed(made);
            lemma_floor_picked(made, made.deepest_depth);
        }
        let player = Creature::new_player(PLAYER_ID);
        let z = out.deepest_depth;
        match out.search_random_floor(z) {
            None => Err(BuildError::NoFloor),
            Some(start) => {
                out.evict(start);
                out.player_location = start;
                let ghost v = out@;
                out.join(player, start);
                assert(out@ =~= made.player_placed().0);
                Ok(out)
            },
        }
    }
}

} // verus!
