//! What holds of every world in play, whatever happened in it.

use vstd::prelude::*;
use crate::creature::{CreatureID, CreatureView, HEALTH_CAP};
use crate::item::Item;
use crate::location::Location;
use crate::prng::{lemma_spread_in_range, step_of};
use crate::world::{WorldView, PLAYER_ID};

verus! {

/// Each creature of the list stands on exactly one cell, and on each taken
/// cell stands exactly one creature of the list.
pub proof fn lemma_one_cell_each(w: WorldView)
    requires
        w.wf(),
    ensures
        forall|i: int|
            0 <= i < w.creatures.len() ==> w.occupied(#[trigger] w.cells[i]) && w.occupancy[w.cells[i].key()]
                == w.creatures[i].id,
        forall|i: int, l: Location|
            0 <= i < w.creatures.len() && w.occupied(l) && w.occupancy[l.key()]
                == (#[trigger] w.creatures[i]).id ==> #[trigger] l.key() == w.cells[i].key() && l
                == w.cells[i],
        forall|l: Location| #[trigger]
            w.occupied(l) ==> w.has_id(w.occupancy[l.key()]) && w.cells[w.index_of(
                w.occupancy[l.key()],
            )] == l,
        forall|i: int, j: int|
            0 <= i < w.creatures.len() && 0 <= j < w.creatures.len() && (#[trigger] w.creatures[i]).id
                == (#[trigger] w.creatures[j]).id ==> i == j,
{
    assert forall|i: int, l: Location|
        0 <= i < w.creatures.len() && w.occupied(l) && w.occupancy[l.key()]
            == (#[trigger] w.creatures[i]).id implies #[trigger] l.key() == w.cells[i].key() && l
        == w.cells[i] by {
        let j = w.lemma_occupant(l);
        w.lemma_index_of(i);
        Location::lemma_key_injective(l, w.cells[i]);
    }
    assert forall|l: Location| #[trigger] w.occupied(l) implies w.has_id(w.occupancy[l.key()])
        && w.cells[w.index_of(w.occupancy[l.key()])] == l by {
        let j = w.lemma_occupant(l);
    }
}

/// Exactly one creature of the list is the player.
pub proof fn lemma_one_player(w: WorldView)
    requires
        w.wf(),
    ensures
        exists|p: int|
            0 <= p < w.creatures.len() && (#[trigger] w.creatures[p]).is_the_player && forall|i: int|
                0 <= i < w.creatures.len() && (#[trigger] w.creatures[i]).is_the_player ==> i == p,
{
    w.lemma_player();
    let p = w.player_index();
    assert(w.creatures[p].is_the_player);
}

/// No identifier occurs twice in the list, and none is as great as the
/// next to hand out.
pub proof fn lemma_identifiers(w: WorldView)
    requires
        w.wf(),
    ensures
        forall|i: int|
            0 <= i < w.creatures.len() ==> (#[trigger] w.creatures[i]).id.0 < w.next_creature_id,
        forall|i: int, j: int|
            0 <= i < w.creatures.len() && 0 <= j < w.creatures.len() && i != j ==> (
            #[trigger] w.creatures[i]).id != (#[trigger] w.creatures[j]).id,
{
}

/// What holds between a world and a later one in which nobody is new: no
/// identifier was handed out, and whoever is in the later world was in the
/// earlier one.
pub open spec fn nobody_new(before: WorldView, after: WorldView) -> bool {
    &&& after.next_creature_id == before.next_creature_id
    &&& forall|i: int|
        0 <= i < after.creatures.len() ==> before.has_id((#[trigger] after.creatures[i]).id)
}

/// Where nobody is new from one world to the next and on to a third,
/// nobody is new from the first to the third.
pub proof fn lemma_nobody_new_chain(a: WorldView, b: WorldView, c: WorldView)
    requires
        nobody_new(a, b),
        nobody_new(b, c),
    ensures
        nobody_new(a, c),
{
    assert forall|i: int| 0 <= i < c.creatures.len() implies a.has_id(
        (#[trigger] c.creatures[i]).id,
    ) by {
        let id = c.creatures[i].id;
        assert(b.has_id(id));
        let j = b.index_of(id);
        assert(a.has_id(b.creatures[j].id));
    }
}

/// A world with the same identifiers in the same places of the list has
/// nobody new.
pub proof fn lemma_same_list(a: WorldView, b: WorldView)
    requires
        b.next_creature_id == a.next_creature_id,
        b.creatures.len() == a.creatures.len(),
        forall|i: int| 0 <= i < a.creatures.len() ==> (#[trigger] b.creatures[i]).id == a.creatures[i].id,
    ensures
        nobody_new(a, b),
{
    assert forall|i: int| 0 <= i < b.creatures.len() implies a.has_id(
        (#[trigger] b.creatures[i]).id,
    ) by {
        assert(a.creatures[i].id == b.creatures[i].id);
    }
}

/// Taking a creature away brings nobody new.
pub proof fn lemma_without_nobody_new(a: WorldView, i: int)
    requires
        0 <= i < a.creatures.len(),
    ensures
        nobody_new(a, a.without(i)),
{
    let b = a.without(i);
    assert forall|j: int| 0 <= j < b.creatures.len() implies a.has_id(
        (#[trigger] b.creatures[j]).id,
    ) by {
        let j0 = if j < i {
            j
        } else {
            j + 1
        };
        assert(a.creatures[j0].id == b.creatures[j].id);
    }
}

impl WorldView {
    /// A blow brings nobody new.
    pub proof fn lemma_struck_nobody_new(self, damage_step: i32, target: Location, lands: bool)
        requires
            self.wf(),
            self.occupied(target),
        ensures
            nobody_new(self, self.struck(damage_step, target, lands)),
    {
        let v = self.lemma_occupant(target);
        let after = self.struck(damage_step, target, lands);
        assert forall|i: int| 0 <= i < self.creatures.len() implies (#[trigger] after.creatures[i]).id
            == self.creatures[i].id by {}
        lemma_same_list(self, after);
    }

    /// A monster's step brings nobody new.
    pub proof fn lemma_monster_step_nobody_new(self, i: int, target: Location)
        requires
            self.wf(),
            0 <= i < self.creatures.len(),
        ensures
            nobody_new(self, self.monster_step(i, target)),
    {
        if self.occupied(target) {
            self.lemma_struck_nobody_new(
                self.creatures[i].damage_step,
                target,
                self.holds_player(target),
            );
        } else {
            lemma_same_list(self, self.monster_step(i, target));
        }
    }

    /// A monster's turn brings nobody new.
    pub proof fn lemma_monster_turn_nobody_new(self, id: CreatureID)
        requires
            self.wf(),
        ensures
            nobody_new(self, self.monster_turn(id)),
    {
        if self.has_id(id) && id != CreatureID(PLAYER_ID) {
            let i = self.index_of(id);
            if self.spots_player(i) {
                self.lemma_monster_step_nobody_new(
                    i,
                    crate::pathing::chase_step(self.terrain, self.cells[i], self.player_location),
                );
            } else {
                let w = self.with_gen(self.gen.after());
                self.lemma_with_gen(self.gen.after());
                lemma_same_list(self, w);
                match self.cells[i].spec_neighbor(
                    crate::turn::wander_direction(crate::prng::output(self.gen.state) >> 30),
                ) {
                    Some(target) => {
                        w.lemma_monster_step_nobody_new(i, target);
                        lemma_nobody_new_chain(self, w, w.monster_step(i, target));
                    },
                    None => {},
                }
            }
        } else {
            lemma_same_list(self, self);
        }
    }

    /// The turns of the monsters bring nobody new.
    pub proof fn lemma_monsters_turn_nobody_new(self, ids: Seq<CreatureID>)
        requires
            self.wf(),
        ensures
            nobody_new(self, self.monsters_turn(ids)),
        decreases ids.len(),
    {
        if ids.len() > 0 {
            self.lemma_monster_turn_nobody_new(ids[0]);
            self.lemma_monster_turn(ids[0]);
            let w = self.monster_turn(ids[0]);
            w.lemma_monsters_turn_nobody_new(ids.drop_first());
            lemma_nobody_new_chain(self, w, w.monsters_turn(ids.drop_first()));
        } else {
            lemma_same_list(self, self);
        }
    }

    /// Sweeping brings nobody new.
    pub proof fn lemma_swept_nobody_new(self, i: int)
        requires
            0 <= i <= self.creatures.len(),
        ensures
            nobody_new(self, self.swept(i)),
        decreases self.creatures.len() - i,
    {
        if i < self.creatures.len() {
            if crate::turn::is_carrion(self.creatures[i]) {
                lemma_without_nobody_new(self, i);
                self.without(i).lemma_swept_nobody_new(i);
                lemma_nobody_new_chain(self, self.without(i), self.without(i).swept(i));
            } else {
                self.lemma_swept_nobody_new(i + 1);
            }
        } else {
            lemma_same_list(self, self);
        }
    }

    /// A turn of the world hands out no identifier and brings nobody new.
    pub proof fn lemma_world_turn_nobody_new(self)
        requires
            self.wf(),
        ensures
            nobody_new(self, self.world_turn()),
    {
        let ids = crate::turn::acting(self.creatures);
        self.lemma_monsters_turn_nobody_new(ids);
        let w = self.monsters_turn(ids);
        w.lemma_swept_nobody_new(0);
        lemma_nobody_new_chain(self, w, w.swept(0));
    }

    /// Whatever the player does by walking hands out no identifier and
    /// brings nobody new.
    pub proof fn lemma_player_goes_nobody_new(self, target: Location)
        requires
            self.wf(),
            self.deepest_depth <= target.z <= 0,
        ensures
            nobody_new(self, self.player_goes(target)),
    {
        self.lemma_player();
        let p = self.player_index();
        if self.occupied(target) {
            self.lemma_struck_nobody_new(self.player().damage_step, target, true);
            self.lemma_struck(self.player().damage_step, target, true);
            let w = self.struck(self.player().damage_step, target, true);
            w.lemma_world_turn_nobody_new();
            lemma_nobody_new_chain(self, w, w.world_turn());
        } else if self.footing(target).blocks_step() {
            lemma_same_list(self, self.trodden(target));
        } else {
            self.lemma_trodden(target);
            let t = self.trodden(target);
            t.lemma_moved(p, target);
            t.moved(p, target).lemma_picked_up(p);
            let w = t.moved(p, target).picked_up(p);
            assert forall|i: int| 0 <= i < self.creatures.len() implies (#[trigger] w.creatures[i]).id
                == self.creatures[i].id by {}
            lemma_same_list(self, w);
            w.lemma_world_turn_nobody_new();
            lemma_nobody_new_chain(self, w, w.world_turn());
        }
    }

    /// Using an item hands out no identifier and brings nobody new.
    pub proof fn lemma_item_used_nobody_new(self, letter: char)
        requires
            self.wf(),
        ensures
            nobody_new(self, self.item_used(letter)),
    {
        self.lemma_player();
        match self.selected(letter) {
            Some(item) => {
                if item.is_potion() {
                    self.lemma_quaffed(item);
                    let w = self.quaffed(item);
                    assert forall|i: int| 0 <= i < self.creatures.len() implies (
                    #[trigger] w.creatures[i]).id == self.creatures[i].id by {}
                    lemma_same_list(self, w);
                    w.lemma_world_turn_nobody_new();
                    lemma_nobody_new_chain(self, w, w.world_turn());
                } else {
                    lemma_same_list(self, self);
                }
            },
            None => {
                lemma_same_list(self, self);
            },
        }
    }
}

impl WorldView {
    /// The damage of a blast brings nobody new and takes nobody away.
    pub proof fn lemma_scorched_nobody_new(self, hit: Set<u128>, i: int)
        requires
            0 <= i <= self.creatures.len(),
        ensures
            nobody_new(self, self.scorched(hit, i)),
            self.scorched(hit, i).creatures.len() == self.creatures.len(),
        decreases self.creatures.len() - i,
    {
        if i < self.creatures.len() {
            if hit.contains(self.cells[i].key()) {
                let w = self.with_gen(self.gen.after()).with_creature(
                    i,
                    self.creatures[i].hurt(
                        step_of(crate::bombs::BLAST_DAMAGE, crate::prng::output(self.gen.state)),
                    ),
                );
                assert forall|j: int| 0 <= j < self.creatures.len() implies (
                #[trigger] w.creatures[j]).id == self.creatures[j].id by {}
                lemma_same_list(self, w);
                w.lemma_scorched_nobody_new(hit, i + 1);
                lemma_nobody_new_chain(self, w, w.scorched(hit, i + 1));
            } else {
                self.lemma_scorched_nobody_new(hit, i + 1);
            }
        } else {
            lemma_same_list(self, self);
        }
    }

    /// Frost on a cell brings nobody new.
    pub proof fn lemma_frozen_nobody_new(self, l: Location)
        requires
            self.wf(),
        ensures
            nobody_new(self, self.frozen(l)),
    {
        if self.terrain_at(l) == crate::terrain::Terrain::Floor {
            let w = self.with_terrain(l, crate::terrain::Terrain::Ice).with_items(l, Seq::empty());
            lemma_same_list(self, w);
            if w.occupied(l) && w.occupancy[l.key()].0 > PLAYER_ID {
                let i = self.lemma_occupant(l);
                assert(w.index_of(w.occupancy[l.key()]) == self.index_of(self.occupancy[l.key()]));
                lemma_without_nobody_new(w, i);
                lemma_nobody_new_chain(self, w, w.without(i));
            }
        } else {
            lemma_same_list(self, self);
        }
    }

    /// Frost beside a cell brings nobody new.
    pub proof fn lemma_frozen_beside_nobody_new(self, center: Location, d: int)
        requires
            self.wf(),
        ensures
            nobody_new(self, self.frozen_beside(center, d)),
    {
        match center.spec_neighbor(d) {
            Some(l) => {
                self.lemma_frozen_nobody_new(l);
            },
            None => {
                lemma_same_list(self, self);
            },
        }
    }

    /// A bomb hands out no identifier and brings nobody new.
    pub proof fn lemma_bombed_nobody_new(self, bomb: Item, center: Location)
        requires
            self.wf(),
        ensures
            nobody_new(self, self.bombed(bomb, center)),
    {
        if bomb == Item::BombBlast {
            let hit = crate::bombs::blast_keys(self.terrain, center);
            let m = self.melted(hit);
            lemma_same_list(self, m);
            m.lemma_scorched_nobody_new(hit, 0);
            lemma_nobody_new_chain(self, m, m.scorched(hit, 0));
        } else {
            self.lemma_frozen_nobody_new(center);
            self.lemma_frozen(center);
            let a = self.frozen(center);
            a.lemma_frozen_beside_nobody_new(center, 0);
            a.lemma_frozen_beside(center, 0);
            let b = a.frozen_beside(center, 0);
            lemma_nobody_new_chain(self, a, b);
            b.lemma_frozen_beside_nobody_new(center, 1);
            b.lemma_frozen_beside(center, 1);
            let c = b.frozen_beside(center, 1);
            lemma_nobody_new_chain(self, b, c);
            c.lemma_frozen_beside_nobody_new(center, 2);
            c.lemma_frozen_beside(center, 2);
            let d = c.frozen_beside(center, 2);
            lemma_nobody_new_chain(self, c, d);
            d.lemma_frozen_beside_nobody_new(center, 3);
            lemma_nobody_new_chain(self, d, d.frozen_beside(center, 3));
        }
    }

    /// Throwing a bomb hands out no identifier and brings nobody new.
    pub proof fn lemma_item_thrown_nobody_new(self, letter: char, delta: Location)
        requires
            self.wf(),
        ensures
            nobody_new(self, self.item_thrown(letter, delta)),
    {
        let bomb = self.selected(letter)->0;
        let w = self.thrown_at(bomb, self.aim(delta));
        match self.aim(delta) {
            Some(center) => {
                self.lemma_bombed_nobody_new(bomb, center);
                self.lemma_bombed(bomb, center);
            },
            None => {
                lemma_same_list(self, self);
            },
        }
        w.lemma_player();
        let s = w.spent(w.player_index(), bomb);
        w.lemma_spent(w.player_index(), bomb);
        assert forall|j: int| 0 <= j < w.creatures.len() implies (#[trigger] s.creatures[j]).id
            == w.creatures[j].id by {}
        lemma_same_list(w, s);
        lemma_nobody_new_chain(self, w, s);
        s.lemma_world_turn_nobody_new();
        lemma_nobody_new_chain(self, s, s.world_turn());
    }
}

/// What holds of the identifiers between a world and any later one: none
/// is taken back, and whoever was not in the earlier world has an
/// identifier that had not been handed out then.
pub open spec fn identifiers_rise(before: WorldView, after: WorldView) -> bool {
    &&& before.next_creature_id <= after.next_creature_id
    &&& forall|i: int|
        0 <= i < after.creatures.len() ==> before.has_id((#[trigger] after.creatures[i]).id)
            || after.creatures[i].id.0 >= before.next_creature_id
}

/// Identifiers rise from world to world, however many steps lie between.
pub proof fn lemma_identifiers_rise_chain(a: WorldView, b: WorldView, c: WorldView)
    requires
        identifiers_rise(a, b),
        identifiers_rise(b, c),
        forall|i: int| 0 <= i < b.creatures.len() ==> (#[trigger] b.creatures[i]).id.0 < b.next_creature_id,
    ensures
        identifiers_rise(a, c),
{
    assert forall|i: int| 0 <= i < c.creatures.len() implies a.has_id(
        (#[trigger] c.creatures[i]).id,
    ) || c.creatures[i].id.0 >= a.next_creature_id by {
        let id = c.creatures[i].id;
        if b.has_id(id) {
            let j = b.index_of(id);
            assert(a.has_id(b.creatures[j].id) || b.creatures[j].id.0 >= a.next_creature_id);
        }
    }
}

/// The making of a floor lets the identifiers rise.
pub proof fn lemma_layer_identifiers(w: WorldView, anchor: Option<Location>)
    requires
        w.consistent(),
        w.deepest_depth > i32::MIN,
        w.next_creature_id + crate::generate::MONSTERS_PER_FLOOR <= usize::MAX,
        w.next_creature_id > PLAYER_ID,
        w.deepest_depth <= 1,
        anchor matches Some(s) ==> s.z == w.deepest_depth,
    ensures
        identifiers_rise(w, w.layer_added(anchor).0),
{
    crate::generate::lemma_layer_added(w, anchor);
    let after = w.layer_added(anchor).0;
    assert forall|i: int| 0 <= i < after.creatures.len() implies w.has_id(
        (#[trigger] after.creatures[i]).id,
    ) || after.creatures[i].id.0 >= w.next_creature_id by {
        if i < w.creatures.len() {
            assert(after.creatures[i] == w.creatures[i]);
        }
    }
}

/// Taking the stairs lets the identifiers rise.
pub proof fn lemma_floor_changed_identifiers(w: WorldView, delta: i32)
    requires
        w.wf(),
        w.deepest_depth > i32::MIN,
        w.next_creature_id + crate::generate::MONSTERS_PER_FLOOR <= usize::MAX,
    ensures
        identifiers_rise(w, w.floor_changed(delta).0),
{
    w.lemma_player();
    assert(w.creatures[w.player_index()].id.0 < w.next_creature_id);
    let standing = w.terrain_at(w.player_location);
    if standing == crate::terrain::Terrain::StairsDown && delta == -1 {
        if w.player_location.z == w.deepest_depth {
            lemma_layer_identifiers(w, Some(w.player_location));
            crate::generate::lemma_layer_added(w, Some(w.player_location));
            let made = w.layer_added(Some(w.player_location));
            if made.1 is None {
                made.0.lemma_player_goes_nobody_new(w.floor_beside(-1));
                lemma_identifiers_rise_chain(w, made.0, made.0.player_goes(w.floor_beside(-1)));
            }
        } else {
            w.lemma_player_goes_nobody_new(w.floor_beside(-1));
        }
    } else if standing == crate::terrain::Terrain::StairsUp && delta == 1 && w.player_location.z
        < 0 {
        w.lemma_player_goes_nobody_new(w.floor_beside(1));
    } else {
        lemma_same_list(w, w);
    }
}

/// A potion of health restores between 1 and 8 hit points, and never
/// leaves more than 30; one who had no more than 30 has no fewer than
/// before.
pub proof fn lemma_potion_of_health(c: CreatureView, raw: u32)
    ensures
        1 <= step_of(8, raw) <= 8,
        c.after_potion(Item::PotionHealth, raw).hit_points <= HEALTH_CAP,
        c.hit_points + step_of(8, raw) <= HEALTH_CAP ==> c.after_potion(
            Item::PotionHealth,
            raw,
        ).hit_points == c.hit_points + step_of(8, raw),
        c.hit_points + step_of(8, raw) > HEALTH_CAP ==> c.after_potion(
            Item::PotionHealth,
            raw,
        ).hit_points == HEALTH_CAP,
        c.after_potion(Item::PotionHealth, raw).damage_step == c.damage_step,
        c.after_potion(Item::PotionHealth, raw).inventory == c.inventory,
{
    lemma_spread_in_range(1, 8, raw);
}

/// A potion of strength raises the damage step by exactly one, and
/// changes nothing else.
pub proof fn lemma_potion_of_strength(c: CreatureView, raw: u32)
    requires
        c.damage_step < i32::MAX,
    ensures
        c.after_potion(Item::PotionStrength, raw).damage_step == c.damage_step + 1,
        c.after_potion(Item::PotionStrength, raw).hit_points == c.hit_points,
        c.after_potion(Item::PotionStrength, raw).inventory == c.inventory,
{
}

} // verus!
