//! Bombs: the blast that thaws ice and hurts whoever it reaches, and the
//! frost that turns floor to ice.

use vstd::prelude::*;
use crate::creature::CreatureID;
use crate::item::{item_for_letter, take_one, Item};
use crate::location::{is_coordinate, Location};
use crate::prng::{output, step, step_of};
use crate::sight::{cell, in_disk, sees, visible_cells};
use crate::terrain::Terrain;
use crate::world::{GameWorld, WorldView, PLAYER_ID};

verus! {

/// How far a blast reaches.
pub const BLAST_RADIUS: u32 = 2;

/// The damage step of a blast.
pub const BLAST_DAMAGE: i32 = 10;

/// The keys of the cells of `cells`.
pub open spec fn keys_of(cells: Seq<Location>) -> Set<u128> {
    Set::new(|k: u128| exists|i: int| 0 <= i < cells.len() && (#[trigger] cells[i]).key() == k)
}

/// The keys of the cells that a blast at `center` reaches over the map
/// `t`: those seen from `center` within the blast radius, where only walls
/// stop the sight.
pub open spec fn blast_keys(t: Map<u128, Terrain>, center: Location) -> Set<u128> {
    Set::new(
        |k: u128| exists|l: Location| #[trigger] l.key() == k && sees(t, center, l, BLAST_RADIUS, false),
    )
}

/// Whether `l` is among the cells of `v`.
pub fn holds(v: &Vec<Location>, l: Location) -> (r: bool)
    ensures
        r == v@.contains(l),
{
    let mut i: usize = 0;
    while i < v.len()
        invariant
            i <= v.len(),
            forall|j: int| 0 <= j < i ==> v@[j] != l,
        decreases v.len() - i,
    {
        if v[i] == l {
            return true;
        }
        i = i + 1;
    }
    false
}

impl WorldView {
    /// The world in which the ice on the cells with keys in `hit` is floor.
    pub open spec fn melted(self, hit: Set<u128>) -> WorldView {
        WorldView {
            terrain: Map::new(
                |k: u128| self.terrain.contains_key(k),
                |k: u128|
                    if self.terrain[k] == Terrain::Ice && hit.contains(k) {
                        Terrain::Floor
                    } else {
                        self.terrain[k]
                    },
            ),
            ..self
        }
    }

    /// The world in which every creature from index `i` on that stands
    /// where the blast reached took the damage of the blast, each from a
    /// draw of its own, in the order of the list.
    pub open spec fn scorched(self, hit: Set<u128>, i: int) -> WorldView
        decreases self.creatures.len() - i,
    {
        if i < 0 || i >= self.creatures.len() {
            self
        } else if hit.contains(self.cells[i].key()) {
            self.with_gen(self.gen.after()).with_creature(
                i,
                self.creatures[i].hurt(step_of(BLAST_DAMAGE, output(self.gen.state))),
            ).scorched(hit, i + 1)
        } else {
            self.scorched(hit, i + 1)
        }
    }

    /// The world after a blast at `center`: the ice that it reaches is
    /// floor, and every creature that it reaches, the player too, is hurt.
    pub open spec fn blasted(self, center: Location) -> WorldView {
        self.melted(blast_keys(self.terrain, center)).scorched(
            blast_keys(self.terrain, center),
            0,
        )
    }

    /// The world after frost fell on `l`. Only floor freezes: it turns to
    /// ice, what lies on it is gone, and who stands on it is gone too,
    /// unless it is the player.
    pub open spec fn frozen(self, l: Location) -> WorldView {
        if self.terrain_at(l) == Terrain::Floor {
            let w = self.with_terrain(l, Terrain::Ice).with_items(l, Seq::empty());
            if w.occupied(l) && w.occupancy[l.key()].0 > PLAYER_ID {
                w.without(w.index_of(w.occupancy[l.key()]))
            } else {
                w
            }
        } else {
            self
        }
    }

    /// The world after frost fell on the neighbour of `center` in
    /// direction `d`, if there is one.
    pub open spec fn frozen_beside(self, center: Location, d: int) -> WorldView {
        match center.spec_neighbor(d) {
            Some(l) => self.frozen(l),
            None => self,
        }
    }

    /// The world after an ice bomb at `center`: frost falls on `center`
    /// and on the four cells beside it.
    pub open spec fn iced(self, center: Location) -> WorldView {
        self.frozen(center).frozen_beside(center, 0).frozen_beside(center, 1).frozen_beside(
            center,
            2,
        ).frozen_beside(center, 3)
    }

    /// The cell that the player aims at with the offset `delta`: on the
    /// player's floor, whatever `delta.z` is. There is none where the
    /// coordinates end.
    pub open spec fn aim(self, delta: Location) -> Option<Location> {
        if is_coordinate(self.player_location.x + delta.x) && is_coordinate(
            self.player_location.y + delta.y,
        ) {
            Some(
                Location {
                    x: (self.player_location.x + delta.x) as i32,
                    y: (self.player_location.y + delta.y) as i32,
                    z: self.player_location.z,
                },
            )
        } else {
            None
        }
    }

    /// The world after the bomb `bomb` went off at `center`.
    pub open spec fn bombed(self, bomb: Item, center: Location) -> WorldView {
        if bomb == Item::BombBlast {
            self.blasted(center)
        } else {
            self.iced(center)
        }
    }

    /// The world after the bomb `bomb` was thrown at `center`: it goes off
    /// there, or nowhere if there is no such cell.
    pub open spec fn thrown_at(self, bomb: Item, center: Option<Location>) -> WorldView {
        match center {
            Some(c) => self.bombed(bomb, c),
            None => self,
        }
    }

    /// The world after the player threw the bomb under `letter` at the
    /// offset `delta`: the bomb goes off, leaves the inventory, and a turn
    /// passes, whatever the bomb did.
    pub open spec fn item_thrown(self, letter: char, delta: Location) -> WorldView {
        let bomb = self.selected(letter)->0;
        let w = self.thrown_at(bomb, self.aim(delta));
        w.spent(w.player_index(), bomb).world_turn()
    }

    /// Thawing leaves the world fit for play.
    pub proof fn lemma_melted(self, hit: Set<u128>)
        requires
            self.wf(),
        ensures
            self.melted(hit).wf(),
    {
        let w = self.melted(hit);
        assert forall|j: int| 0 <= j < w.cells.len() implies crate::pathing::walkable(
            w.terrain,
            #[trigger] w.cells[j],
        ) by {
            assert(crate::pathing::walkable(self.terrain, self.cells[j]));
        }
        let p = self.index_of(CreatureID(PLAYER_ID));
        assert(w.creatures[p].id == CreatureID(PLAYER_ID));
    }

    /// The damage of a blast leaves the world fit for play.
    pub proof fn lemma_scorched(self, hit: Set<u128>, i: int)
        requires
            self.wf(),
            0 <= i <= self.creatures.len(),
        ensures
            self.scorched(hit, i).wf(),
        decreases self.creatures.len() - i,
    {
        if i < self.creatures.len() {
            if hit.contains(self.cells[i].key()) {
                self.lemma_with_gen(self.gen.after());
                let w = self.with_gen(self.gen.after());
                let c = self.creatures[i].hurt(step_of(BLAST_DAMAGE, output(self.gen.state)));
                w.lemma_with_creature(i, c);
                w.with_creature(i, c).lemma_scorched(hit, i + 1);
            } else {
                self.lemma_scorched(hit, i + 1);
            }
        }
    }

    /// Frost on a cell leaves the world fit for play.
    pub proof fn lemma_frozen(self, l: Location)
        requires
            self.wf(),
        ensures
            self.frozen(l).wf(),
    {
        if self.terrain_at(l) == Terrain::Floor {
            self.lemma_with_terrain(l, Terrain::Ice);
            let v = self.with_terrain(l, Terrain::Ice);
            v.lemma_with_items(l, Seq::empty());
            let w = v.with_items(l, Seq::empty());
            if w.occupied(l) && w.occupancy[l.key()].0 > PLAYER_ID {
                let i = w.lemma_occupant(l);
                w.lemma_without(i);
            }
        }
    }

    /// Frost beside a cell leaves the world fit for play.
    pub proof fn lemma_frozen_beside(self, center: Location, d: int)
        requires
            self.wf(),
        ensures
            self.frozen_beside(center, d).wf(),
    {
        match center.spec_neighbor(d) {
            Some(l) => {
                self.lemma_frozen(l);
            },
            None => {},
        }
    }

    /// A bomb leaves the world fit for play.
    pub proof fn lemma_bombed(self, bomb: Item, center: Location)
        requires
            self.wf(),
        ensures
            self.bombed(bomb, center).wf(),
    {
        if bomb == Item::BombBlast {
            let hit = blast_keys(self.terrain, center);
            self.lemma_melted(hit);
            self.melted(hit).lemma_scorched(hit, 0);
        } else {
            self.lemma_frozen(center);
            let a = self.frozen(center);
            a.lemma_frozen_beside(center, 0);
            let b = a.frozen_beside(center, 0);
            b.lemma_frozen_beside(center, 1);
            let c = b.frozen_beside(center, 1);
            c.lemma_frozen_beside(center, 2);
            c.frozen_beside(center, 2).lemma_frozen_beside(center, 3);
        }
    }
}

/// Whoever is in the later world was in the earlier one, and is as it was
/// there.
pub open spec fn unharmed(before: WorldView, after: WorldView) -> bool {
    forall|i: int|
        0 <= i < after.creatures.len() ==> before.has_id((#[trigger] after.creatures[i]).id)
            && after.creatures[i] == before.creatures[before.index_of(after.creatures[i].id)]
}

/// Who is unharmed from one world to the next and on to a third is
/// unharmed from the first to the third.
pub proof fn lemma_unharmed_chain(a: WorldView, b: WorldView, c: WorldView)
    requires
        unharmed(a, b),
        unharmed(b, c),
    ensures
        unharmed(a, c),
{
    assert forall|i: int| 0 <= i < c.creatures.len() implies a.has_id(
        (#[trigger] c.creatures[i]).id,
    ) && c.creatures[i] == a.creatures[a.index_of(c.creatures[i].id)] by {
        let id = c.creatures[i].id;
        let j = b.index_of(id);
        assert(b.creatures[j].id == id);
        assert(a.has_id(b.creatures[j].id));
    }
}

/// Whether the frost of an ice bomb at `center` falls on `l`: on the
/// centre and on the cells that share an edge with it.
pub open spec fn frost_reaches(center: Location, l: Location) -> bool {
    l == center || center.adjacent(l)
}

impl WorldView {
    /// Frost on a cell changes that cell alone, and only if it is floor:
    /// it turns to ice and what lies on it is gone. Nobody comes to stand
    /// anywhere, and on the frozen cell nobody stays but the player.
    pub proof fn lemma_frozen_effect(self, l: Location)
        requires
            self.wf(),
        ensures
            forall|m: Location| #[trigger]
                cell(self.frozen(l).terrain, m) == if m == l && cell(self.terrain, l)
                    == Terrain::Floor {
                    Terrain::Ice
                } else {
                    cell(self.terrain, m)
                },
            forall|m: Location| #[trigger]
                self.frozen(l).items_at(m) == if m == l && cell(self.terrain, l)
                    == Terrain::Floor {
                    Seq::<Item>::empty()
                } else {
                    self.items_at(m)
                },
            forall|m: Location| #[trigger]
                self.frozen(l).occupied(m) ==> self.occupied(m) && self.frozen(l).occupancy[m.key()]
                    == self.occupancy[m.key()],
            cell(self.terrain, l) == Terrain::Floor && self.frozen(l).occupied(l)
                ==> self.frozen(l).occupancy[l.key()] == CreatureID(PLAYER_ID),
            unharmed(self, self.frozen(l)),
    {
        let after = self.frozen(l);
        if self.terrain_at(l) == Terrain::Floor {
            let w = self.with_terrain(l, Terrain::Ice).with_items(l, Seq::empty());
            assert forall|m: Location| #[trigger]
                cell(after.terrain, m) == if m == l {
                    Terrain::Ice
                } else {
                    cell(self.terrain, m)
                } by {
                Location::lemma_key_injective(m, l);
            }
            assert forall|m: Location| #[trigger]
                after.items_at(m) == if m == l {
                    Seq::<Item>::empty()
                } else {
                    self.items_at(m)
                } by {
                Location::lemma_key_injective(m, l);
            }
            if w.occupied(l) {
                let i = self.lemma_occupant(l);
                assert(PLAYER_ID <= self.creatures[i].id.0);
                assert(w.index_of(w.occupancy[l.key()]) == i);
                if w.occupancy[l.key()].0 > PLAYER_ID {
                    assert forall|j: int| 0 <= j < after.creatures.len() implies self.has_id(
                        (#[trigger] after.creatures[j]).id,
                    ) && after.creatures[j] == self.creatures[self.index_of(
                        after.creatures[j].id,
                    )] by {
                        let j0 = if j < i {
                            j
                        } else {
                            j + 1
                        };
                        assert(after.creatures[j] == self.creatures[j0]);
                        self.lemma_index_of(j0);
                    }
                }
            }
        }
        assert forall|i: int| 0 <= i < after.creatures.len() implies self.has_id(
            (#[trigger] after.creatures[i]).id,
        ) && after.creatures[i] == self.creatures[self.index_of(after.creatures[i].id)] by {
            if after.creatures.len() == self.creatures.len() {
                assert(after.creatures[i] == self.creatures[i]);
                self.lemma_index_of(i);
            }
        }
    }

    /// Frost beside a cell does what frost on the neighbour does, and
    /// nothing where there is no neighbour.
    pub proof fn lemma_frozen_beside_effect(self, center: Location, d: int)
        requires
            self.wf(),
            0 <= d < 4,
        ensures
            forall|m: Location| #[trigger]
                cell(self.frozen_beside(center, d).terrain, m) == if center.spec_neighbor(d)
                    == Some(m) && cell(self.terrain, m) == Terrain::Floor {
                    Terrain::Ice
                } else {
                    cell(self.terrain, m)
                },
            forall|m: Location| #[trigger]
                self.frozen_beside(center, d).items_at(m) == if center.spec_neighbor(d) == Some(m)
                    && cell(self.terrain, m) == Terrain::Floor {
                    Seq::<Item>::empty()
                } else {
                    self.items_at(m)
                },
            forall|m: Location| #[trigger]
                self.frozen_beside(center, d).occupied(m) ==> self.occupied(m)
                    && self.frozen_beside(center, d).occupancy[m.key()] == self.occupancy[m.key()],
            forall|m: Location|
                center.spec_neighbor(d) == Some(m) && cell(self.terrain, m) == Terrain::Floor
                    && #[trigger] self.frozen_beside(center, d).occupied(m)
                    ==> self.frozen_beside(center, d).occupancy[m.key()] == CreatureID(PLAYER_ID),
            unharmed(self, self.frozen_beside(center, d)),
    {
        match center.spec_neighbor(d) {
            Some(l) => {
                self.lemma_frozen_effect(l);
            },
            None => {
                assert forall|i: int| 0 <= i < self.creatures.len() implies self.has_id(
                    (#[trigger] self.creatures[i]).id,
                ) && self.creatures[i] == self.creatures[self.index_of(self.creatures[i].id)] by {
                    self.lemma_index_of(i);
                }
            },
        }
    }

    /// What an ice bomb does: every floor cell that its frost reaches turns
    /// to ice, and what lies on it is gone; every other cell, and what lies
    /// on it, stays as it is. On the frozen cells nobody stays but the
    /// player, and whoever stays in the world is as before, the player too.
    pub proof fn lemma_iced_effect(self, center: Location)
        requires
            self.wf(),
        ensures
            forall|m: Location| #[trigger]
                cell(self.iced(center).terrain, m) == if frost_reaches(center, m) && cell(
                    self.terrain,
                    m,
                ) == Terrain::Floor {
                    Terrain::Ice
                } else {
                    cell(self.terrain, m)
                },
            forall|m: Location| #[trigger]
                self.iced(center).items_at(m) == if frost_reaches(center, m) && cell(
                    self.terrain,
                    m,
                ) == Terrain::Floor {
                    Seq::<Item>::empty()
                } else {
                    self.items_at(m)
                },
            forall|m: Location|
                frost_reaches(center, m) && cell(self.terrain, m) == Terrain::Floor
                    && #[trigger] self.iced(center).occupied(m) ==> self.iced(center).occupancy[m.key()]
                    == CreatureID(PLAYER_ID),
            unharmed(self, self.iced(center)),
    {
        let a = self.frozen(center);
        self.lemma_frozen(center);
        self.lemma_frozen_effect(center);
        let b = a.frozen_beside(center, 0);
        a.lemma_frozen_beside(center, 0);
        a.lemma_frozen_beside_effect(center, 0);
        let c = b.frozen_beside(center, 1);
        b.lemma_frozen_beside(center, 1);
        b.lemma_frozen_beside_effect(center, 1);
        let d = c.frozen_beside(center, 2);
        c.lemma_frozen_beside(center, 2);
        c.lemma_frozen_beside_effect(center, 2);
        let e = d.frozen_beside(center, 3);
        d.lemma_frozen_beside_effect(center, 3);
        lemma_unharmed_chain(self, a, b);
        lemma_unharmed_chain(self, b, c);
        lemma_unharmed_chain(self, c, d);
        lemma_unharmed_chain(self, d, e);
        assert forall|m: Location|
            frost_reaches(center, m) <==> m == center || center.spec_neighbor(0) == Some(m)
                || center.spec_neighbor(1) == Some(m) || center.spec_neighbor(2) == Some(m)
                || center.spec_neighbor(3) == Some(m) by {
            center.lemma_adjacent_is_neighbor(m);
        }
        assert forall|m: Location| #[trigger]
            cell(e.terrain, m) == if frost_reaches(center, m) && cell(self.terrain, m)
                == Terrain::Floor {
                Terrain::Ice
            } else {
                cell(self.terrain, m)
            } by {
            let s0 = cell(self.terrain, m);
            let s1 = cell(a.terrain, m);
            let s2 = cell(b.terrain, m);
            let s3 = cell(c.terrain, m);
            let s4 = cell(d.terrain, m);
        }
        assert forall|m: Location| #[trigger]
            e.items_at(m) == if frost_reaches(center, m) && cell(self.terrain, m)
                == Terrain::Floor {
                Seq::<Item>::empty()
            } else {
                self.items_at(m)
            } by {
            let s0 = cell(self.terrain, m);
            let s1 = cell(a.terrain, m);
            let s2 = cell(b.terrain, m);
            let s3 = cell(c.terrain, m);
            let s4 = cell(d.terrain, m);
            let i0 = self.items_at(m);
            let i1 = a.items_at(m);
            let i2 = b.items_at(m);
            let i3 = c.items_at(m);
            let i4 = d.items_at(m);
        }
        assert forall|m: Location|
            frost_reaches(center, m) && cell(self.terrain, m) == Terrain::Floor
                && #[trigger] e.occupied(m) implies e.occupancy[m.key()] == CreatureID(
            PLAYER_ID,
        ) by {
            let s0 = cell(self.terrain, m);
            let s1 = cell(a.terrain, m);
            let s2 = cell(b.terrain, m);
            let s3 = cell(c.terrain, m);
            let s4 = cell(d.terrain, m);
            assert(d.occupied(m));
            assert(c.occupied(m));
            assert(b.occupied(m));
            assert(a.occupied(m));
        }
    }
}

/// The frost of an ice bomb falls on the disk of radius 1: the centre and
/// the cells that share an edge with it.
pub proof fn lemma_frost_is_disk(center: Location, l: Location)
    ensures
        in_disk(center, l, 1) <==> l == center || center.adjacent(l),
{
    let dx = l.x - center.x;
    let dy = l.y - center.y;
    assert(dx * dx + dy * dy <= 1 <==> (dx == 0 && -1 <= dy <= 1) || (dy == 0 && -1 <= dx <= 1))
        by (nonlinear_arith);
}

impl GameWorld {
    /// Sets off a blast at `center`.
    pub fn blast(&mut self, center: Location)
        requires
            old(self).wf(),
        ensures
            final(self)@ == old(self)@.blasted(center),
            final(self).wf(),
    {
        let area = visible_cells(&self.terrain, center, BLAST_RADIUS, false);
        let ghost hit = blast_keys(self@.terrain, center);
        proof {
            assert forall|k: u128| keys_of(area@).contains(k) <==> hit.contains(k) by {
                if keys_of(area@).contains(k) {
                    let i = choose|i: int| 0 <= i < area@.len() && (#[trigger] area@[i]).key() == k;
                    assert(area@.contains(area@[i]));
                }
                if hit.contains(k) {
                    let l = choose|l: Location|
                        #[trigger] l.key() == k && sees(
                            self@.terrain,
                            center,
                            l,
                            BLAST_RADIUS,
                            false,
                        );
                    assert(area@.contains(l));
                    let i = choose|i: int| 0 <= i < area@.len() && area@[i] == l;
                    assert(area@[i].key() == k);
                }
            }
            assert(keys_of(area@) =~= hit);
            assert(keys_of(area@.take(0)) =~= Set::<u128>::empty());
            assert(self@ =~= old(self)@.melted(keys_of(area@.take(0))));
        }
        let mut j: usize = 0;
        while j < area.len()
            invariant
                j <= area.len(),
                self@ == old(self)@.melted(keys_of(area@.take(j as int))),
            decreases area.len() - j,
        {
            let l = area[j];
            proof {
                assert forall|k: u128|
                    keys_of(area@.take(j + 1)).contains(k) <==> keys_of(
                        area@.take(j as int),
                    ).contains(k) || k == l.key() by {
                    if keys_of(area@.take(j + 1)).contains(k) {
                        let i = choose|i: int|
                            0 <= i < area@.take(j + 1).len() && (#[trigger] area@.take(
                                j + 1,
                            )[i]).key() == k;
                        if i < j {
                            assert(area@.take(j as int)[i].key() == k);
                        }
                    }
                    if keys_of(area@.take(j as int)).contains(k) {
                        let i = choose|i: int|
                            0 <= i < area@.take(j as int).len() && (#[trigger] area@.take(
                                j as int,
                            )[i]).key() == k;
                        assert(area@.take(j + 1)[i].key() == k);
                    }
                    if k == l.key() {
                        assert(area@.take(j + 1)[j as int].key() == k);
                    }
                }
            }
            match self.terrain_at(l) {
                Terrain::Ice => {
                    self.set_terrain(l, Terrain::Floor);
                },
                _ => {},
            }
            assert(self@ =~= old(self)@.melted(keys_of(area@.take(j + 1))));
            j = j + 1;
        }
        proof {
            assert(area@.take(area@.len() as int) =~= area@);
            old(self)@.lemma_melted(hit);
        }
        let mut i: usize = 0;
        while i < self.creature_list.len()
            invariant
                i <= self.creature_list.len(),
                self.wf(),
                keys_of(area@) == hit,
                self@.scorched(hit, i as int) == old(self)@.blasted(center),
            decreases self.creature_list.len() - i,
        {
            let here = self.creature_cells[i];
            let reached = holds(&area, here);
            proof {
                if reached {
                    let n = choose|n: int| 0 <= n < area@.len() && area@[n] == here;
                    assert(area@[n].key() == here.key());
                }
                if hit.contains(here.key()) {
                    let n = choose|n: int|
                        0 <= n < area@.len() && (#[trigger] area@[n]).key() == here.key();
                    Location::lemma_key_injective(area@[n], here);
                }
                assert(self@.cells[i as int] == here);
            }
            if reached {
                proof {
                    self@.lemma_with_gen(self@.gen.after());
                    self@.with_gen(self@.gen.after()).lemma_with_creature(
                        i as int,
                        self@.creatures[i as int].hurt(
                            step_of(BLAST_DAMAGE, output(self@.gen.state)),
                        ),
                    );
                }
                let ghost before = self@;
                let roll = step(&mut self.gen, BLAST_DAMAGE);
                self.hurt(i, roll);
                assert(self@ =~= before.with_gen(before.gen.after()).with_creature(
                    i as int,
                    before.creatures[i as int].hurt(step_of(BLAST_DAMAGE, output(before.gen.state))),
                ));
            }
            i = i + 1;
        }
    }

    /// Lets frost fall on `l`.
    pub fn freeze(&mut self, l: Location)
        requires
            old(self).wf(),
        ensures
            final(self)@ == old(self)@.frozen(l),
            final(self).wf(),
    {
        proof {
            self@.lemma_frozen(l);
        }
        match self.terrain_at(l) {
            Terrain::Floor => {
                self.set_terrain(l, Terrain::Ice);
                let dropped = self.take_items(l);
                match self.occupant(l) {
                    Some(id) => {
                        if id.0 > PLAYER_ID {
                            proof {
                                old(self)@.lemma_with_terrain(l, Terrain::Ice);
                                old(self)@.with_terrain(l, Terrain::Ice).lemma_with_items(
                                    l,
                                    Seq::empty(),
                                );
                                let i = self@.lemma_occupant(l);
                            }
                            match self.index_of(id) {
                                Some(i) => {
                                    self.remove_creature(i);
                                },
                                None => {},
                            }
                        }
                    },
                    None => {},
                }
            },
            _ => {},
        }
    }

    /// Sets off an ice bomb at `center`.
    pub fn ice(&mut self, center: Location)
        requires
            old(self).wf(),
        ensures
            final(self)@ == old(self)@.iced(center),
            final(self).wf(),
    {
        self.freeze(center);
        let mut d: u8 = 0;
        while d < 4
            invariant
                d <= 4,
                self.wf(),
                d == 0 ==> self@ == old(self)@.frozen(center),
                d == 1 ==> self@ == old(self)@.frozen(center).frozen_beside(center, 0),
                d == 2 ==> self@ == old(self)@.frozen(center).frozen_beside(center, 0).frozen_beside(
                    center,
                    1,
                ),
                d == 3 ==> self@ == old(self)@.frozen(center).frozen_beside(center, 0).frozen_beside(
                    center,
                    1,
                ).frozen_beside(center, 2),
                d == 4 ==> self@ == old(self)@.iced(center),
            decreases 4 - d,
        {
            match center.neighbor(d) {
                Some(l) => {
                    self.freeze(l);
                },
                None => {},
            }
            d = d + 1;
        }
    }

    /// Throws the bomb that `letter` selects in the player's inventory at
    /// the cell at offset `target_delta` from the player, on the player's
    /// floor. The bomb goes off there, leaves the inventory, and a turn of
    /// the world passes, whatever the bomb did.
    pub fn use_targeted_item(&mut self, item_letter: char, target_delta: Location)
        requires
            old(self).wf(),
            old(self)@.selected(item_letter) == Some(Item::BombBlast) || old(self)@.selected(
                item_letter,
            ) == Some(Item::BombIce),
        ensures
            final(self)@ == old(self)@.item_thrown(item_letter, target_delta),
            final(self).wf(),
    {
        let p = self.player_index();
        let x: i64 = self.player_location.x as i64 + target_delta.x as i64;
        let y: i64 = self.player_location.y as i64 + target_delta.y as i64;
        let center = if -0x8000_0000 <= x && x <= 0x7fff_ffff && -0x8000_0000 <= y && y
            <= 0x7fff_ffff {
            Some(Location { x: x as i32, y: y as i32, z: self.player_location.z })
        } else {
            None
        };
        assert(center == self@.aim(target_delta));
        proof {
            if center is Some {
                self@.lemma_bombed(self@.selected(item_letter)->0, center->0);
            }
        }
        match item_for_letter(&self.creature_list[p].inventory, item_letter) {
            Some(bomb) => {
                match center {
                    Some(c) => {
                        match bomb {
                            Item::BombBlast => {
                                self.blast(c);
                            },
                            _ => {
                                self.ice(c);
                            },
                        }
                    },
                    None => {},
                }
                let q = self.player_index();
                proof {
                    self@.lemma_spent(q as int, bomb);
                }
                let ghost gone_off = self@;
                take_one(&mut self.creature_list[q].inventory, bomb);
                assert(self@ =~= gone_off.spent(q as int, bomb));
            },
            None => {},
        }
        self.run_world_turn();
    }
}

} // verus!
