//! What the player does: walking, fighting, and using what the inventory
//! holds.

use vstd::prelude::*;
use crate::creature::{apply_potion, CreatureID};
use crate::generate::{failure, lemma_layer_added, BuildError, MONSTERS_PER_FLOOR};
use crate::terrain::Terrain;
use crate::item::{item_for_letter, kind_for_letter, take_one, without_one, Item};
use crate::location::Location;
use crate::prng::output;
use crate::world::{GameWorld, WorldView, PLAYER_ID};

verus! {

/// What came of the wish to use an item.
#[derive(Debug, Clone, Copy, PartialEq, Eq, Structural)]
pub enum UseItemResult {
    ItemUsed,
    ItemNeedsTarget,
    NoSuchItem,
}

impl WorldView {
    /// The world after creature `i` lifted what lies on its cell.
    pub open spec fn picked_up(self, i: int) -> WorldView {
        let here = self.cells[i];
        self.with_items(here, Seq::empty()).with_creature(
            i,
            self.creatures[i].with_inventory(self.creatures[i].inventory + self.items_at(here)),
        )
    }

    /// The world after the player tried to go to `target`. If somebody
    /// stands there the player strikes, and a turn passes. If wall or ice is
    /// in the way nothing happens and no turn passes. Else the player goes
    /// there and lifts what lies there, and a turn passes.
    pub open spec fn player_goes(self, target: Location) -> WorldView {
        if self.occupied(target) {
            self.struck(self.player().damage_step, target, true).world_turn()
        } else if self.footing(target).blocks_step() {
            self.trodden(target)
        } else {
            self.trodden(target).moved(self.player_index(), target).picked_up(
                self.player_index(),
            ).world_turn()
        }
    }

    /// The world after the player tried to go by `delta`. Nothing happens
    /// where that would leave the range of the coordinates or the floors
    /// that are made.
    pub open spec fn player_moves(self, delta: Location) -> WorldView {
        match self.player_location.spec_checked_add(delta) {
            Some(target) => if self.deepest_depth <= target.z <= 0 {
                self.player_goes(target)
            } else {
                self
            },
            None => self,
        }
    }

    /// The cell straight below or above the player, by `delta`.
    pub open spec fn floor_beside(self, delta: int) -> Location {
        Location {
            x: self.player_location.x,
            y: self.player_location.y,
            z: (self.player_location.z + delta) as i32,
        }
    }

    /// The world after the player tried to take the stairs, down with a
    /// `delta` of -1 and up with a `delta` of 1, and what went wrong in the
    /// making of a floor, if anything. Nothing happens where the player
    /// does not stand on the stairs that lead that way, and nothing leads up
    /// from the first floor. Stairs down on the deepest floor lead to a
    /// floor that is made first; if that fails the player stays.
    pub open spec fn floor_changed(self, delta: i32) -> (WorldView, Option<BuildError>) {
        let standing = self.terrain_at(self.player_location);
        if standing == Terrain::StairsDown && delta == -1 {
            if self.player_location.z == self.deepest_depth {
                let made = self.layer_added(Some(self.player_location));
                if made.1 is Some {
                    made
                } else {
                    (made.0.player_goes(self.floor_beside(-1)), None)
                }
            } else {
                (self.player_goes(self.floor_beside(-1)), None)
            }
        } else if standing == Terrain::StairsUp && delta == 1 && self.player_location.z < 0 {
            (self.player_goes(self.floor_beside(1)), None)
        } else {
            (self, None)
        }
    }

    /// The world in which creature `i` has one `item` less.
    pub open spec fn spent(self, i: int, item: Item) -> WorldView {
        self.with_creature(
            i,
            self.creatures[i].with_inventory(without_one(self.creatures[i].inventory, item)),
        )
    }

    /// The world after the player drank one `potion`.
    pub open spec fn quaffed(self, potion: Item) -> WorldView {
        self.with_gen(
            if potion == Item::PotionHealth {
                self.gen.after()
            } else {
                self.gen
            },
        ).with_creature(
            self.player_index(),
            self.player().after_potion(potion, output(self.gen.state)),
        ).spent(self.player_index(), potion)
    }

    /// The kind of item that `letter` selects in the player's inventory.
    pub open spec fn selected(self, letter: char) -> Option<Item> {
        kind_for_letter(self.player().inventory, letter)
    }

    /// The world after the player asked for the item under `letter`: a
    /// potion is drunk and a turn passes; anything else changes nothing.
    pub open spec fn item_used(self, letter: char) -> WorldView {
        match self.selected(letter) {
            Some(item) => if item.is_potion() {
                self.quaffed(item).world_turn()
            } else {
                self
            },
            None => self,
        }
    }

    /// The answer to the player who asked for the item under `letter`.
    pub open spec fn use_answer(self, letter: char) -> UseItemResult {
        match self.selected(letter) {
            Some(item) => if item.is_potion() {
                UseItemResult::ItemUsed
            } else {
                UseItemResult::ItemNeedsTarget
            },
            None => UseItemResult::NoSuchItem,
        }
    }

    /// Laying items on a cell leaves the world fit for play, and the player
    /// in the same place of the list.
    pub proof fn lemma_with_items(self, l: Location, stack: Seq<Item>)
        requires
            self.wf(),
        ensures
            self.with_items(l, stack).wf(),
            self.with_items(l, stack).player_index() == self.player_index(),
    {
        self.lemma_frame(self.with_items(l, stack));
    }

    /// Lifting what lies on one's cell leaves the world fit for play.
    pub proof fn lemma_picked_up(self, i: int)
        requires
            self.wf(),
            0 <= i < self.creatures.len(),
        ensures
            self.picked_up(i).wf(),
    {
        let here = self.cells[i];
        self.lemma_with_items(here, Seq::empty());
        self.with_items(here, Seq::empty()).lemma_with_creature(
            i,
            self.creatures[i].with_inventory(self.creatures[i].inventory + self.items_at(here)),
        );
    }

    /// Spending an item leaves the world fit for play.
    pub proof fn lemma_spent(self, i: int, item: Item)
        requires
            self.wf(),
            0 <= i < self.creatures.len(),
        ensures
            self.spent(i, item).wf(),
    {
        self.lemma_with_creature(
            i,
            self.creatures[i].with_inventory(without_one(self.creatures[i].inventory, item)),
        );
    }

    /// Going somewhere on the player's floor leaves the world fit for
    /// play.
    pub proof fn lemma_player_goes(self, target: Location)
        requires
            self.wf(),
            self.deepest_depth <= target.z <= 0,
        ensures
            self.player_goes(target).wf(),
    {
        self.lemma_player();
        let p = self.player_index();
        if self.occupied(target) {
            self.lemma_struck(self.player().damage_step, target, true);
            self.struck(self.player().damage_step, target, true).lemma_world_turn();
        } else {
            self.lemma_trodden(target);
            if !self.footing(target).blocks_step() {
                let w = self.trodden(target);
                w.lemma_moved(p, target);
                w.moved(p, target).lemma_picked_up(p);
                w.moved(p, target).picked_up(p).lemma_world_turn();
            }
        }
    }

    /// Drinking a potion leaves the world fit for play.
    pub proof fn lemma_quaffed(self, potion: Item)
        requires
            self.wf(),
        ensures
            self.quaffed(potion).wf(),
    {
        self.lemma_player();
        let p = self.player_index();
        let gen = if potion == Item::PotionHealth {
            self.gen.after()
        } else {
            self.gen
        };
        self.lemma_with_gen(gen);
        let w = self.with_gen(gen);
        let drunk = self.player().after_potion(potion, output(self.gen.state));
        w.lemma_with_creature(p, drunk);
        w.with_creature(p, drunk).lemma_spent(p, potion);
    }
}

impl GameWorld {
    /// Lets the player try to go to `target`.
    pub fn player_goes(&mut self, target: Location)
        requires
            old(self).wf(),
            old(self).deepest_depth <= target.z <= 0,
        ensures
            final(self)@ == old(self)@.player_goes(target),
            final(self).wf(),
    {
        proof {
            self@.lemma_player_goes(target);
            self@.lemma_player();
            self@.lemma_trodden(target);
        }
        let p = self.player_index();
        match self.occupant(target) {
            Some(victim) => {
                let damage_step = self.creature_list[p].damage_step;
                assert(self@.creatures[p as int].damage_step >= 1);
                self.strike(damage_step, target, victim, false);
                self.run_world_turn();
            },
            None => {
                let footing = self.tread(target);
                if footing.blocks_step() {
                    return ;
                }
                proof {
                    self@.lemma_moved(p as int, target);
                }
                self.relocate(p, target);
                proof {
                    self@.lemma_picked_up(p as int);
                }
                let ghost before = self@;
                let stack = self.take_items(target);
                self.give_items(p, stack);
                assert(self@ =~= before.picked_up(p as int));
                self.run_world_turn();
            },
        }
    }

    /// Lets the player try to go by `delta`. Striking somebody or going
    /// there takes a turn of the world; running into wall or ice takes none,
    /// nor does a step that would leave the floors that are made.
    pub fn move_player(&mut self, delta: Location)
        requires
            old(self).wf(),
        ensures
            final(self)@ == old(self)@.player_moves(delta),
            final(self).wf(),
    {
        proof {
            self@.lemma_player();
        }
        match self.player_location.checked_add(delta) {
            Some(target) => {
                if self.deepest_depth <= target.z && target.z <= 0 {
                    self.player_goes(target);
                }
            },
            None => {},
        }
    }

    /// Takes the stairs on which the player stands: down with a
    /// `floor_delta` of -1, up with one of 1. Stairs down on the deepest
    /// floor lead to a new floor, which is made first. Going takes a turn of
    /// the world.
    pub fn change_floor(&mut self, floor_delta: i32) -> (r: Result<(), BuildError>)
        requires
            old(self).wf(),
            old(self).deepest_depth > i32::MIN,
            old(self).next_creature_id <= usize::MAX - MONSTERS_PER_FLOOR,
        ensures
            (final(self)@, failure(r)) == old(self)@.floor_changed(floor_delta),
            final(self).wf(),
    {
        proof {
            self@.lemma_player();
            let p = self@.player_index();
            assert(self@.creatures[p].id.0 < self@.next_creature_id);
        }
        let here = self.player_location;
        match (self.terrain_at(here), floor_delta) {
            (Terrain::StairsDown, -1) => {
                let below = Location { x: here.x, y: here.y, z: here.z - 1 };
                if here.z == self.deepest_depth {
                    proof {
                        lemma_layer_added(self@, Some(here));
                    }
                    match self.add_z_layer(Some(here)) {
                        Err(e) => {
                            return Err(e);
                        },
                        Ok(_) => {},
                    }
                }
                self.player_goes(below);
                Ok(())
            },
            (Terrain::StairsUp, 1) => {
                if here.z < 0 {
                    let above = Location { x: here.x, y: here.y, z: here.z + 1 };
                    self.player_goes(above);
                }
                Ok(())
            },
            _ => Ok(()),
        }
    }

    /// Uses the item that `letter` selects in the player's inventory, where
    /// the kinds held are lettered from `a` on in listing order. A potion is
    /// drunk at once, leaves the inventory, and a turn of the world passes.
    /// A bomb is left where it is, for it needs a target. A letter that
    /// selects nothing changes nothing.
    pub fn use_item(&mut self, item_letter: char) -> (r: UseItemResult)
        requires
            old(self).wf(),
        ensures
            final(self)@ == old(self)@.item_used(item_letter),
            r == old(self)@.use_answer(item_letter),
            final(self).wf(),
    {
        let p = self.player_index();
        match item_for_letter(&self.creature_list[p].inventory, item_letter) {
            Some(item) => {
                if item.is_potion() {
                    proof {
                        self@.lemma_quaffed(item);
                    }
                    apply_potion(&item, &mut self.creature_list[p], &mut self.gen);
                    take_one(&mut self.creature_list[p].inventory, item);
                    assert(self@ =~= old(self)@.quaffed(item));
                    self.run_world_turn();
                    UseItemResult::ItemUsed
                } else {
                    UseItemResult::ItemNeedsTarget
                }
            },
            None => UseItemResult::NoSuchItem,
        }
    }
}

} // verus!
