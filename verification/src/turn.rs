//! One turn of the world: each monster that lives acts once, in the order of
//! the list, and then the dead are taken away.

use vstd::prelude::*;
use crate::creature::{CreatureID, CreatureView};
use crate::location::Location;
use crate::pathing::{chase_step, first_step, lemma_chase_step, lemma_seen_is_connected, walkable};
use crate::prng::{output, step, step_of, PCG32};
use crate::sight::{can_see, sees};
use crate::terrain::Terrain;
use crate::world::{GameWorld, WorldView, PLAYER_ID};

verus! {

/// How far a monster sees.
pub const SIGHT_RADIUS: u32 = 7;

/// The direction in which a monster that sees no player wanders, by the
/// two top bits of a draw: +y, -y, +x, -x.
pub open spec fn wander_direction(bits: u32) -> int {
    if bits == 0 {
        2
    } else if bits == 1 {
        3
    } else if bits == 2 {
        0
    } else {
        1
    }
}

/// The identifiers of the creatures of `list` that act in a turn: all but
/// the player and the dead, in the order of the list.
pub open spec fn acting(list: Seq<CreatureView>) -> Seq<CreatureID>
    decreases list.len(),
{
    if list.len() == 0 {
        Seq::empty()
    } else if list.last().is_the_player || list.last().hit_points < 1 {
        acting(list.drop_last())
    } else {
        acting(list.drop_last()).push(list.last().id)
    }
}

/// A creature that the end of the turn takes away: dead, and not the
/// player.
pub open spec fn is_carrion(c: CreatureView) -> bool {
    c.hit_points < 1 && !c.is_the_player
}

impl WorldView {
    /// The world after somebody with the damage step `damage_step` struck
    /// whoever stands on the taken cell `target`. The blow takes one draw;
    /// it lands if `lands` says so.
    pub open spec fn struck(self, damage_step: i32, target: Location, lands: bool) -> WorldView {
        let roll = step_of(damage_step, output(self.gen.state));
        let victim = self.index_of(self.occupancy[target.key()]);
        let w = self.with_gen(self.gen.after());
        if lands {
            w.with_creature(victim, self.creatures[victim].hurt(roll))
        } else {
            w
        }
    }

    /// Whether the creature on the taken cell `target` is the player.
    pub open spec fn holds_player(self, target: Location) -> bool {
        self.creatures[self.index_of(self.occupancy[target.key()])].is_the_player
    }

    /// The world after monster `i` tried to step on `target`. If somebody
    /// stands there, the monster strikes, and the blow lands only on the
    /// player. If not, the monster goes there unless wall or ice is in the
    /// way.
    pub open spec fn monster_step(self, i: int, target: Location) -> WorldView {
        if self.occupied(target) {
            self.struck(self.creatures[i].damage_step, target, self.holds_player(target))
        } else if self.footing(target).blocks_step() {
            self.trodden(target)
        } else {
            self.trodden(target).moved(i, target)
        }
    }

    /// Whether monster `i` sees the player.
    pub open spec fn spots_player(self, i: int) -> bool {
        sees(self.terrain, self.cells[i], self.player_location, SIGHT_RADIUS, true)
    }

    /// The world after monster `i` acted: if it sees the player it takes
    /// the first step of the shortest route to the player, else it takes a
    /// draw and tries a step in the direction drawn.
    pub open spec fn monster_acts(self, i: int) -> WorldView {
        if self.spots_player(i) {
            self.monster_step(i, chase_step(self.terrain, self.cells[i], self.player_location))
        } else {
            let w = self.with_gen(self.gen.after());
            match self.cells[i].spec_neighbor(wander_direction(output(self.gen.state) >> 30)) {
                Some(target) => w.monster_step(i, target),
                None => w,
            }
        }
    }

    /// The world after the creature with the identifier `id` acted, if
    /// there is such a creature and it is not the player.
    pub open spec fn monster_turn(self, id: CreatureID) -> WorldView {
        if self.has_id(id) && id != CreatureID(PLAYER_ID) {
            self.monster_acts(self.index_of(id))
        } else {
            self
        }
    }

    /// The world after the creatures of `ids` acted, one after the other.
    pub open spec fn monsters_turn(self, ids: Seq<CreatureID>) -> WorldView
        decreases ids.len(),
    {
        if ids.len() == 0 {
            self
        } else {
            self.monster_turn(ids[0]).monsters_turn(ids.drop_first())
        }
    }

    /// The world without the carrion among the creatures from index `i`
    /// on.
    pub open spec fn swept(self, i: int) -> WorldView
        decreases self.creatures.len() - i,
    {
        if i < 0 || i >= self.creatures.len() {
            self
        } else if is_carrion(self.creatures[i]) {
            self.without(i).swept(i)
        } else {
            self.swept(i + 1)
        }
    }

    /// The world after one turn: those who act are fixed at the start, act
    /// in turn, and then the carrion is swept away.
    pub open spec fn world_turn(self) -> WorldView {
        self.monsters_turn(acting(self.creatures)).swept(0)
    }

    /// Another generator leaves the world fit for play, and the player in the
    /// same place of the list.
    pub proof fn lemma_with_gen(self, gen: PCG32)
        requires
            self.wf(),
        ensures
            self.with_gen(gen).wf(),
            self.with_gen(gen).player_index() == self.player_index(),
    {
        self.lemma_frame(self.with_gen(gen));
    }

    /// A step on a cell leaves the world fit for play, and the cell on the
    /// map.
    pub proof fn lemma_trodden(self, l: Location)
        requires
            self.wf(),
        ensures
            self.trodden(l).wf(),
            self.trodden(l).footing(l) == self.footing(l),
            self.trodden(l).terrain.contains_key(l.key()),
            self.trodden(l).terrain_at(l) == self.footing(l),
    {
        if !self.terrain.contains_key(l.key()) {
            self.lemma_with_terrain(l, Terrain::Floor);
        }
    }

    /// A blow leaves the world fit for play.
    pub proof fn lemma_struck(self, damage_step: i32, target: Location, lands: bool)
        requires
            self.wf(),
            self.occupied(target),
        ensures
            self.struck(damage_step, target, lands).wf(),
    {
        let v = self.lemma_occupant(target);
        self.lemma_with_gen(self.gen.after());
        let w = self.with_gen(self.gen.after());
        let roll = step_of(damage_step, output(self.gen.state));
        if lands {
            w.lemma_with_creature(v, self.creatures[v].hurt(roll));
        }
    }

    /// A monster's step on its own floor leaves the world fit for play.
    pub proof fn lemma_monster_step(self, i: int, target: Location)
        requires
            self.wf(),
            0 <= i < self.creatures.len(),
            target.z == self.cells[i].z,
        ensures
            self.monster_step(i, target).wf(),
    {
        if self.occupied(target) {
            self.lemma_struck(self.creatures[i].damage_step, target, self.holds_player(target));
        } else {
            self.lemma_trodden(target);
            if !self.footing(target).blocks_step() {
                let w = self.trodden(target);
                assert(w.cells[i] == self.cells[i]);
                w.lemma_moved(i, target);
            }
        }
    }

    /// A monster's turn leaves the world fit for play.
    pub proof fn lemma_monster_turn(self, id: CreatureID)
        requires
            self.wf(),
        ensures
            self.monster_turn(id).wf(),
    {
        if self.has_id(id) && id != CreatureID(PLAYER_ID) {
            let i = self.index_of(id);
            let here = self.cells[i];
            assert(self.creatures[i].id == id);
            if self.spots_player(i) {
                self.lemma_player();
                self.lemma_cells_distinct(i, self.player_index());
                assert(walkable(self.terrain, self.cells[i]));
                lemma_seen_is_connected(self.terrain, here, self.player_location, SIGHT_RADIUS, true);
                lemma_chase_step(self.terrain, here, self.player_location);
                self.lemma_monster_step(i, chase_step(self.terrain, here, self.player_location));
            } else {
                self.lemma_with_gen(self.gen.after());
                let w = self.with_gen(self.gen.after());
                match here.spec_neighbor(wander_direction(output(self.gen.state) >> 30)) {
                    Some(target) => {
                        w.lemma_monster_step(i, target);
                    },
                    None => {},
                }
            }
        }
    }

    /// The turns of the monsters leave the world fit for play.
    pub proof fn lemma_monsters_turn(self, ids: Seq<CreatureID>)
        requires
            self.wf(),
        ensures
            self.monsters_turn(ids).wf(),
        decreases ids.len(),
    {
        if ids.len() > 0 {
            self.lemma_monster_turn(ids[0]);
            self.monster_turn(ids[0]).lemma_monsters_turn(ids.drop_first());
        }
    }

    /// Sweeping leaves the world fit for play, with no carrion from `i` on
    /// and with everything before `i` as it was.
    pub proof fn lemma_swept(self, i: int)
        requires
            self.wf(),
            0 <= i <= self.creatures.len(),
        ensures
            self.swept(i).wf(),
            i <= self.swept(i).creatures.len() <= self.creatures.len(),
            forall|j: int| 0 <= j < i ==> self.swept(i).creatures[j] == self.creatures[j],
            forall|j: int|
                i <= j < self.swept(i).creatures.len() ==> !is_carrion(
                    #[trigger] self.swept(i).creatures[j],
                ),
            self.swept(i).terrain == self.terrain,
            self.swept(i).items == self.items,
            self.swept(i).gen == self.gen,
            self.swept(i).player_location == self.player_location,
            self.swept(i).next_creature_id == self.next_creature_id,
            self.swept(i).deepest_depth == self.deepest_depth,
        decreases self.creatures.len() - i,
    {
        if i < self.creatures.len() {
            if is_carrion(self.creatures[i]) {
                self.lemma_without(i);
                self.without(i).lemma_swept(i);
                assert forall|j: int| 0 <= j < i implies self.swept(i).creatures[j]
                    == self.creatures[j] by {
                    assert(self.without(i).creatures[j] == self.creatures[j]);
                }
            } else {
                self.lemma_swept(i + 1);
            }
        }
    }

    /// A turn leaves the world fit for play, and no carrion in it.
    pub proof fn lemma_world_turn(self)
        requires
            self.wf(),
        ensures
            self.world_turn().wf(),
            forall|j: int|
                0 <= j < self.world_turn().creatures.len() ==> !is_carrion(
                    #[trigger] self.world_turn().creatures[j],
                ),
    {
        self.lemma_monsters_turn(acting(self.creatures));
        self.monsters_turn(acting(self.creatures)).lemma_swept(0);
    }
}

impl GameWorld {
    /// The identifiers of those who act in the turn that starts now.
    pub fn initiative(&self) -> (r: Vec<CreatureID>)
        ensures
            r@ == acting(self@.creatures),
    {
        let mut ids: Vec<CreatureID> = Vec::new();
        let mut i: usize = 0;
        while i < self.creature_list.len()
            invariant
                i <= self.creature_list.len(),
                ids@ == acting(self@.creatures.take(i as int)),
            decreases self.creature_list.len() - i,
        {
            proof {
                assert(self@.creatures.take(i + 1).drop_last() =~= self@.creatures.take(i as int));
                assert(self@.creatures.take(i + 1).last() == self@.creatures[i as int]);
            }
            if !(self.creature_list[i].is_the_player || self.creature_list[i].hit_points < 1) {
                ids.push(self.creature_list[i].id);
            }
            i = i + 1;
        }
        proof {
            assert(self@.creatures.take(self.creature_list.len() as int) =~= self@.creatures);
        }
        ids
    }

    /// Lets whoever has the damage step `damage_step` strike the creature
    /// on the taken cell `target`.
    pub(crate) fn strike(
        &mut self,
        damage_step: i32,
        target: Location,
        victim: CreatureID,
        only_player: bool,
    )
        requires
            old(self).wf(),
            damage_step >= 1,
            old(self)@.occupied(target),
            victim == old(self)@.occupancy[target.key()],
        ensures
            final(self)@ == old(self)@.struck(
                damage_step,
                target,
                !only_player || old(self)@.holds_player(target),
            ),
            final(self).wf(),
    {
        proof {
            let v = self@.lemma_occupant(target);
            self@.lemma_struck(
                damage_step,
                target,
                !only_player || self@.holds_player(target),
            );
        }
        let roll = step(&mut self.gen, damage_step);
        match self.index_of(victim) {
            Some(v) => {
                if !only_player || self.creature_list[v].is_the_player {
                    self.hurt(v, roll);
                }
            },
            None => {},
        }
        assert(self@ =~= old(self)@.struck(
            damage_step,
            target,
            !only_player || old(self)@.holds_player(target),
        ));
    }

    /// Lets monster `i` try to step on `target`.
    fn monster_step(&mut self, i: usize, target: Location)
        requires
            old(self).wf(),
            i < old(self).creature_list.len(),
            target.z == old(self).creature_cells[i as int].z,
        ensures
            final(self)@ == old(self)@.monster_step(i as int, target),
            final(self).wf(),
    {
        proof {
            self@.lemma_monster_step(i as int, target);
            self@.lemma_trodden(target);
        }
        match self.occupant(target) {
            Some(victim) => {
                let damage_step = self.creature_list[i].damage_step;
                assert(self@.creatures[i as int].damage_step >= 1);
                self.strike(damage_step, target, victim, true);
            },
            None => {
                let footing = self.tread(target);
                if !footing.blocks_step() {
                    self.relocate(i, target);
                }
            },
        }
    }

    /// Lets the creature with the identifier `id` act, if it is in the
    /// world.
    pub fn monster_turn(&mut self, id: CreatureID)
        requires
            old(self).wf(),
        ensures
            final(self)@ == old(self)@.monster_turn(id),
            final(self).wf(),
    {
        proof {
            self@.lemma_monster_turn(id);
        }
        if id.0 == PLAYER_ID {
            return ;
        }
        match self.index_of(id) {
            None => {},
            Some(i) => {
                let here = self.creature_cells[i];
                if can_see(&self.terrain, here, self.player_location, SIGHT_RADIUS, true) {
                    proof {
                        self@.lemma_player();
                        assert(walkable(self@.terrain, self@.cells[i as int]));
                        lemma_seen_is_connected(
                            self@.terrain,
                            here,
                            self.player_location,
                            SIGHT_RADIUS,
                            true,
                        );
                        assert(self@.creatures[i as int].id == id);
                        self@.lemma_cells_distinct(i as int, self@.player_index());
                    }
                    match first_step(&self.terrain, here, self.player_location) {
                        Some(target) => {
                            self.monster_step(i, target);
                        },
                        None => {},
                    }
                } else {
                    let raw = self.gen.next_u32();
                    let bits = raw >> 30;
                    assert(bits < 4) by (bit_vector)
                        requires
                            bits == raw >> 30,
                    ;
                    let direction: u8 = if bits == 0 {
                        2
                    } else if bits == 1 {
                        3
                    } else if bits == 2 {
                        0
                    } else {
                        1
                    };
                    proof {
                        old(self)@.lemma_with_gen(old(self)@.gen.after());
                        assert(self@ =~= old(self)@.with_gen(old(self)@.gen.after()));
                    }
                    match here.neighbor(direction) {
                        Some(target) => {
                            self.monster_step(i, target);
                        },
                        None => {},
                    }
                }
            },
        }
    }

    /// Takes the dead away: every creature without hit points, the player
    /// excepted, leaves the list and its cell.
    pub fn sweep(&mut self)
        requires
            old(self).wf(),
        ensures
            final(self)@ == old(self)@.swept(0),
            final(self).wf(),
    {
        let mut i: usize = 0;
        while i < self.creature_list.len()
            invariant
                i <= self.creature_list.len(),
                self.wf(),
                self@.swept(i as int) == old(self)@.swept(0),
            decreases self.creature_list.len() - i,
        {
            if self.creature_list[i].hit_points < 1 && !self.creature_list[i].is_the_player {
                proof {
                    assert(is_carrion(self@.creatures[i as int]));
                    self@.lemma_without(i as int);
                }
                self.remove_creature(i);
            } else {
                proof {
                    assert(!is_carrion(self@.creatures[i as int]));
                }
                i = i + 1;
            }
        }
    }

    /// Runs one turn of the world: every monster that lives at the start
    /// acts once, in the order of the list; then the dead are taken away.
    pub fn run_world_turn(&mut self)
        requires
            old(self).wf(),
        ensures
            final(self)@ == old(self)@.world_turn(),
            final(self).wf(),
    {
        let ids = self.initiative();
        let mut n: usize = 0;
        proof {
            assert(ids@.skip(0) =~= ids@);
        }
        while n < ids.len()
            invariant
                n <= ids.len(),
                self.wf(),
                self@.monsters_turn(ids@.skip(n as int)) == old(self)@.monsters_turn(ids@),
            decreases ids.len() - n,
        {
            proof {
                assert(ids@.skip(n as int)[0] == ids@[n as int]);
                assert(ids@.skip(n as int).drop_first() =~= ids@.skip(n + 1));
            }
            self.monster_turn(ids[n]);
            n = n + 1;
        }
        proof {
            assert(ids@.skip(ids@.len() as int).len() == 0);
        }
        self.sweep();
    }
}

} // verus!
