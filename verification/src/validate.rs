//! The test of a world that came from elsewhere: whether it is fit for
//! play.

use vstd::prelude::*;
use vstd::set_lib::lemma_subset_equality;
use crate::creature::CreatureID;
use crate::location::Location;
use crate::pathing::walkable;
use crate::world::{GameWorld, WorldView, PLAYER_ID};

verus! {

/// The keys of the cells on which the creatures stand, in the order of
/// the list.
pub open spec fn cell_keys(w: WorldView) -> Seq<u128> {
    Seq::new(w.cells.len(), |i: int| w.cells[i].key())
}

/// What must hold of creature `i` by itself in a consistent world.
pub open spec fn creature_fits(w: WorldView, i: int) -> bool {
    &&& PLAYER_ID <= w.creatures[i].id.0 < w.next_creature_id
    &&& w.occupancy.contains_key(w.cells[i].key())
    &&& w.occupancy[w.cells[i].key()] == w.creatures[i].id
    &&& walkable(w.terrain, w.cells[i])
    &&& w.creatures[i].damage_step >= 1
    &&& (w.creatures[i].is_the_player <==> w.creatures[i].id == CreatureID(PLAYER_ID))
    &&& (w.creatures[i].is_the_player ==> w.cells[i] == w.player_location)
    &&& w.deepest_depth <= w.cells[i].z <= 0
}

/// Where no identifier occurs twice and every creature stands on its cell
/// in the map, no two creatures share a cell.
proof fn lemma_keys_distinct(w: WorldView)
    requires
        w.cells.len() == w.creatures.len(),
        forall|i: int|
            0 <= i < w.cells.len() ==> w.occupancy.contains_key((#[trigger] w.cells[i]).key())
                && w.occupancy[w.cells[i].key()] == w.creatures[i].id,
        forall|i: int, j: int|
            0 <= i < w.creatures.len() && 0 <= j < w.creatures.len() && i != j ==> (
            #[trigger] w.creatures[i]).id != (#[trigger] w.creatures[j]).id,
    ensures
        cell_keys(w).no_duplicates(),
        cell_keys(w).to_set().subset_of(w.occupancy.dom()),
        cell_keys(w).to_set().len() == w.creatures.len(),
        cell_keys(w).to_set().finite(),
{
    let keys = cell_keys(w);
    assert forall|i: int, j: int| 0 <= i < keys.len() && 0 <= j < keys.len() && i != j implies keys[i]
        != keys[j] by {
        assert(w.occupancy[w.cells[i].key()] == w.creatures[i].id);
        assert(w.occupancy[w.cells[j].key()] == w.creatures[j].id);
    }
    assert forall|k: u128| keys.to_set().contains(k) implies w.occupancy.dom().contains(k) by {
        let i = choose|i: int| 0 <= i < keys.len() && keys[i] == k;
        assert(w.occupancy.contains_key(w.cells[i].key()));
    }
    keys.unique_seq_to_set();
    vstd::seq_lib::seq_to_set_is_finite(keys);
}

/// In a world in sync there are as many taken cells as creatures.
pub proof fn lemma_as_many_cells_as_creatures(w: WorldView)
    requires
        w.in_sync(),
        w.occupancy.dom().finite(),
    ensures
        w.occupancy.len() == w.creatures.len(),
{
    lemma_keys_distinct(w);
    let keys = cell_keys(w);
    assert forall|k: u128| w.occupancy.dom().contains(k) implies keys.to_set().contains(k) by {
        let i = choose|i: int| 0 <= i < w.cells.len() && (#[trigger] w.cells[i]).key() == k;
        assert(keys[i] == k);
    }
    assert(keys.to_set() =~= w.occupancy.dom());
}

impl GameWorld {
    /// Whether the world is fit for play: whether the list of creatures
    /// and the map of who stands where agree, nobody stands in a wall or
    /// off the floors made, and exactly one creature, the first ever made,
    /// is the player.
    pub fn is_playable(&self) -> (r: bool)
        ensures
            r == self.wf(),
    {
        let n = self.creature_list.len();
        if self.creature_cells.len() != n {
            return false;
        }
        if self.creature_locations.len() != n {
            proof {
                if self@.in_sync() {
                    lemma_as_many_cells_as_creatures(self@);
                }
            }
            return false;
        }
        let mut has_player = false;
        let mut i: usize = 0;
        while i < n
            invariant
                i <= n,
                n == self.creature_list.len(),
                n == self.creature_cells.len(),
                forall|j: int| 0 <= j < i ==> creature_fits(self@, j),
                forall|j: int, m: int|
                    0 <= j < i && 0 <= m < n && j != m ==> (#[trigger] self@.creatures[j]).id != (
                    #[trigger] self@.creatures[m]).id,
                has_player <==> exists|j: int|
                    0 <= j < i && (#[trigger] self@.creatures[j]).id == CreatureID(PLAYER_ID),
            decreases n - i,
        {
            let c = &self.creature_list[i];
            let l = self.creature_cells[i];
            proof {
                assert(self@.creatures[i as int] == c@);
            }
            let on_map = match self.creature_locations.get(&l.key()) {
                Some(id) => id.0 == c.id.0,
                None => false,
            };
            let fits = PLAYER_ID <= c.id.0 && c.id.0 < self.next_creature_id && on_map
                && !self.terrain_at(l).blocks_route() && c.damage_step >= 1 && c.is_the_player == (
            c.id.0 == PLAYER_ID) && (!c.is_the_player || l == self.player_location)
                && self.deepest_depth <= l.z && l.z <= 0;
            if !fits {
                proof {
                    assert(!creature_fits(self@, i as int));
                    if self.wf() {
                        assert(PLAYER_ID <= self@.creatures[i as int].id.0);
                        assert(self@.occupancy.contains_key(self@.cells[i as int].key()));
                        assert(walkable(self@.terrain, self@.cells[i as int]));
                    }
                }
                return false;
            }
            let mut m: usize = i + 1;
            while m < n
                invariant
                    i < m <= n,
                    n == self.creature_list.len(),
                    c.id == self@.creatures[i as int].id,
                    forall|k: int| i < k < m ==> (#[trigger] self@.creatures[k]).id
                        != self@.creatures[i as int].id,
                decreases n - m,
            {
                if self.creature_list[m].id.0 == c.id.0 {
                    proof {
                        assert(self@.creatures[m as int].id == self@.creatures[i as int].id);
                    }
                    return false;
                }
                m = m + 1;
            }
            if c.id.0 == PLAYER_ID {
                has_player = true;
            }
            proof {
                assert forall|j: int, k: int| 0 <= j < i + 1 && 0 <= k < n && j != k implies (
                #[trigger] self@.creatures[j]).id != (#[trigger] self@.creatures[k]).id by {
                    if j == i && k < i {
                        assert(self@.creatures[k].id != self@.creatures[j].id);
                    }
                }
            }
            i = i + 1;
        }
        if !has_player {
            proof {
                if self@.has_id(CreatureID(PLAYER_ID)) {
                    let p = self@.index_of(CreatureID(PLAYER_ID));
                    assert(self@.creatures[p].id == CreatureID(PLAYER_ID));
                }
            }
            return false;
        }
        proof {
            let w = self@;
            assert forall|j: int| 0 <= j < w.cells.len() implies w.occupancy.contains_key(
                (#[trigger] w.cells[j]).key(),
            ) && w.occupancy[w.cells[j].key()] == w.creatures[j].id by {
                assert(creature_fits(w, j));
            }
            lemma_keys_distinct(w);
            lemma_subset_equality(cell_keys(w).to_set(), w.occupancy.dom());
            assert forall|k: u128| #[trigger] w.occupancy.contains_key(k) implies exists|j: int|
                0 <= j < w.cells.len() && (#[trigger] w.cells[j]).key() == k by {
                assert(cell_keys(w).to_set().contains(k));
                let j = choose|j: int| 0 <= j < cell_keys(w).len() && cell_keys(w)[j] == k;
                assert(w.cells[j].key() == k);
            }
            assert forall|j: int| 0 <= j < w.creatures.len() implies PLAYER_ID <= (
            #[trigger] w.creatures[j]).id.0 < w.next_creature_id && w.creatures[j].damage_step >= 1
                && (w.creatures[j].is_the_player <==> w.creatures[j].id == CreatureID(PLAYER_ID))
                && (w.creatures[j].is_the_player ==> w.cells[j] == w.player_location) by {
                assert(creature_fits(w, j));
            }
            assert forall|j: int| 0 <= j < w.cells.len() implies walkable(
                w.terrain,
                #[trigger] w.cells[j],
            ) && w.deepest_depth <= w.cells[j].z <= 0 by {
                assert(creature_fits(w, j));
            }
            let p = choose|j: int|
                0 <= j < n && (#[trigger] w.creatures[j]).id == CreatureID(PLAYER_ID);
            assert(w.creatures[p].id == CreatureID(PLAYER_ID));
        }
        true
    }
}

} // verus!
