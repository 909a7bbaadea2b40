//! The inhabitants of the dungeon, and what a potion does to one.

use vstd::prelude::*;
use crate::item::Item;
use crate::prng::{output, step, step_of, PCG32};

verus! {

/// The colour of the player's icon.
pub const TERULO_BROWN: u32 = 0xFFC5_8B05;

/// The colour of a kestrel's icon.
pub const KESTREL_RED: u32 = 0xFFA6_0000;

/// No potion heals beyond this.
pub const HEALTH_CAP: i32 = 30;

/// The number that names a creature. The world hands them out in rising
/// order and never twice.
#[derive(Debug, Clone, Copy, PartialEq, Eq, Hash, Structural)]
pub struct CreatureID(pub usize);

#[derive(Debug)]
pub struct Creature {
    pub icon: u8,
    pub color: u32,
    pub is_the_player: bool,
    pub id: CreatureID,
    pub hit_points: i32,
    pub damage_step: i32,
    pub inventory: Vec<Item>,
}

/// A creature as a value of mathematics: the inventory is a sequence.
pub struct CreatureView {
    pub icon: u8,
    pub color: u32,
    pub is_the_player: bool,
    pub id: CreatureID,
    pub hit_points: i32,
    pub damage_step: i32,
    pub inventory: Seq<Item>,
}

impl View for Creature {
    type V = CreatureView;

    open spec fn view(&self) -> CreatureView {
        CreatureView {
            icon: self.icon,
            color: self.color,
            is_the_player: self.is_the_player,
            id: self.id,
            hit_points: self.hit_points,
            damage_step: self.damage_step,
            inventory: self.inventory@,
        }
    }
}

impl CreatureView {
    /// This creature after `damage` points of damage. Hit points stop at
    /// the least value that an `i32` holds.
    pub open spec fn hurt(self, damage: int) -> CreatureView {
        CreatureView {
            hit_points: if self.hit_points - damage < i32::MIN {
                i32::MIN
            } else {
                (self.hit_points - damage) as i32
            },
            ..self
        }
    }

    /// This creature after a potion of health healed `heal` points.
    pub open spec fn healed(self, heal: int) -> CreatureView {
        CreatureView {
            hit_points: if self.hit_points + heal > HEALTH_CAP {
                HEALTH_CAP
            } else {
                (self.hit_points + heal) as i32
            },
            ..self
        }
    }

    /// This creature after a potion of strength. The damage step stops at
    /// the greatest value that an `i32` holds.
    pub open spec fn strengthened(self) -> CreatureView {
        CreatureView {
            damage_step: if self.damage_step < i32::MAX {
                (self.damage_step + 1) as i32
            } else {
                self.damage_step
            },
            ..self
        }
    }

    /// This creature with another inventory.
    pub open spec fn with_inventory(self, inventory: Seq<Item>) -> CreatureView {
        CreatureView { inventory, ..self }
    }

    /// This creature after it drank `potion`, where `raw` is the draw that
    /// a potion of health takes from the generator.
    pub open spec fn after_potion(self, potion: Item, raw: u32) -> CreatureView {
        match potion {
            Item::PotionHealth => self.healed(step_of(8, raw)),
            Item::PotionStrength => self.strengthened(),
            _ => self,
        }
    }
}

impl Creature {
    /// A creature with one hit point, a damage step of one and no items.
    pub open spec fn spec_new(cid: usize, icon: u8, color: u32) -> CreatureView {
        CreatureView {
            icon,
            color,
            is_the_player: false,
            id: CreatureID(cid),
            hit_points: 1,
            damage_step: 1,
            inventory: Seq::empty(),
        }
    }

    /// A creature with one hit point, a damage step of one and no items.
    pub fn new(cid: usize, icon: u8, color: u32) -> (r: Self)
        ensures
            r@ == Self::spec_new(cid, icon, color),
    {
        Creature {
            icon,
            color,
            is_the_player: false,
            id: CreatureID(cid),
            hit_points: 1,
            damage_step: 1,
            inventory: Vec::new(),
        }
    }

    /// The player: an `@` with 20 hit points and a damage step of 5.
    pub open spec fn spec_new_player(cid: usize) -> CreatureView {
        CreatureView {
            is_the_player: true,
            hit_points: 20,
            damage_step: 5,
            ..Self::spec_new(cid, 64, TERULO_BROWN)
        }
    }

    /// The player: an `@` with 20 hit points and a damage step of 5.
    pub fn new_player(cid: usize) -> (r: Self)
        ensures
            r@ == Self::spec_new_player(cid),
    {
        let mut out = Self::new(cid, 64, TERULO_BROWN);
        out.is_the_player = true;
        out.hit_points = 20;
        out.damage_step = 5;
        out
    }

    /// A kestrel: a `k` with 8 hit points and a damage step of 3.
    pub open spec fn spec_new_kestrel(cid: usize) -> CreatureView {
        CreatureView { hit_points: 8, damage_step: 3, ..Self::spec_new(cid, 107, KESTREL_RED) }
    }

    /// A kestrel: a `k` with 8 hit points and a damage step of 3.
    pub fn new_kestrel(cid: usize) -> (r: Self)
        ensures
            r@ == Self::spec_new_kestrel(cid),
    {
        let mut out = Self::new(cid, 107, KESTREL_RED);
        out.hit_points = 8;
        out.damage_step = 3;
        out
    }

    /// Takes `damage` hit points away.
    pub fn take_damage(&mut self, damage: i32)
        requires
            damage >= 0,
        ensures
            final(self)@ == old(self)@.hurt(damage as int),
    {
        let left: i64 = self.hit_points as i64 - damage as i64;
        self.hit_points = if left < -0x8000_0000 {
            -0x8000_0000
        } else {
            left as i32
        };
    }
}

/// Lets `target` drink `potion`. A potion of health restores between 1 and
/// 8 hit points, up to 30 in all, and takes one draw from `rng`; a potion of
/// strength raises the damage step by one and takes none.
pub fn apply_potion(potion: &Item, target: &mut Creature, rng: &mut PCG32)
    requires
        potion.is_potion(),
    ensures
        final(target)@ == old(target)@.after_potion(*potion, output(old(rng).state)),
        *final(rng) == if *potion == Item::PotionHealth {
            old(rng).after()
        } else {
            *old(rng)
        },
{
    match potion {
        Item::PotionHealth => {
            let heal: i32 = step(rng, 8);
            let raised: i64 = target.hit_points as i64 + heal as i64;
            target.hit_points = if raised > HEALTH_CAP as i64 {
                HEALTH_CAP
            } else {
                raised as i32
            };
        },
        Item::PotionStrength => {
            if target.damage_step < i32::MAX {
                target.damage_step = target.damage_step + 1;
            }
        },
        _ => {},
    }
}

} // verus!
