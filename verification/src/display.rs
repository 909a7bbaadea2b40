//! What a screen shows of the world: the glyph and the colour of a cell, and
//! the numbers of the status line.

use vstd::prelude::*;
use crate::item::{catalog, count_of, kinds_held, Item};
use crate::location::Location;
use crate::sight::{can_see, sees};
use crate::terrain::{Terrain, BOMB_GLYPH, POTION_GLYPH, WALL_TILE};
use crate::world::{GameWorld, WorldView};

verus! {

pub const HEALTH_RED: u32 = 0xFFFA_0505;

pub const STRENGTH_GREEN: u32 = 0xFF05_F014;

pub const BLAST_GREY: u32 = 0xFF7F_7F7F;

pub const FROST_BLUE: u32 = 0xFF99_D9EA;

pub const WALL_BROWN: u32 = 0xFF9B_4B00;

pub const ICE_BLUE: u32 = 0xFF70_92BE;

pub const FLOOR_GREY: u32 = 0xFF80_8080;

pub const STAIRS_GREY: u32 = 0xFFBE_BEBE;

/// The glyph of a blank cell.
pub const BLANK: u8 = 32;

/// How far the player sees on the screen.
pub const VIEW_RADIUS: u32 = 33;

/// The letter of place `place` in a listing: `a` for the first.
pub open spec fn spec_letter_of_place(place: int) -> char {
    if place == 0 {
        'a'
    } else if place == 1 {
        'b'
    } else if place == 2 {
        'c'
    } else {
        'd'
    }
}

/// The letter of place `place` in a listing of the kinds of item.
pub fn letter_of_place(place: usize) -> (r: char)
    requires
        place < crate::item::ITEM_KINDS,
    ensures
        r == spec_letter_of_place(place as int),
        crate::item::spec_letter_place(r) == Some(place as nat),
{
    if place == 0 {
        'a'
    } else if place == 1 {
        'b'
    } else if place == 2 {
        'c'
    } else {
        'd'
    }
}

/// The lines of an inventory screen: for each kind held its letter, the
/// kind, and the number held, in listing order. The letter of a line is the
/// letter that selects its kind.
pub fn listing(inv: &Vec<Item>) -> (r: Vec<(char, Item, usize)>)
    ensures
        r@.len() == kinds_held(inv@).len(),
        forall|i: int|
            0 <= i < r@.len() ==> (#[trigger] r@[i]).0 == spec_letter_of_place(i) && r@[i].1
                == kinds_held(inv@)[i] && r@[i].2 == count_of(inv@, r@[i].1)
                && crate::item::kind_for_letter(inv@, r@[i].0) == Some(r@[i].1),
{
    let kinds = catalog(inv);
    proof {
        lemma_kinds_held_short(inv@);
    }
    let mut out: Vec<(char, Item, usize)> = Vec::new();
    let mut i: usize = 0;
    while i < kinds.len()
        invariant
            i <= kinds.len(),
            kinds@.len() == kinds_held(inv@).len(),
            kinds@.len() <= crate::item::ITEM_KINDS,
            forall|j: int|
                0 <= j < kinds@.len() ==> (#[trigger] kinds@[j]).0 == kinds_held(inv@)[j]
                    && kinds@[j].1 == count_of(inv@, kinds@[j].0),
            out@.len() == i,
            forall|j: int|
                0 <= j < i ==> (#[trigger] out@[j]).0 == spec_letter_of_place(j) && out@[j].1
                    == kinds_held(inv@)[j] && out@[j].2 == count_of(inv@, out@[j].1)
                    && crate::item::kind_for_letter(inv@, out@[j].0) == Some(out@[j].1),
        decreases kinds.len() - i,
    {
        let letter = letter_of_place(i);
        out.push((letter, kinds[i].0, kinds[i].1));
        i = i + 1;
    }
    out
}

/// No inventory holds more kinds than there are.
pub proof fn lemma_kinds_held_short(inv: Seq<Item>)
    ensures
        kinds_held(inv).len() <= crate::item::ITEM_KINDS,
{
}

/// The cell of the world that a screen of `width` by `height` tiles shows
/// in column `column` and row `row`, with `center` in the middle of the
/// screen; none where the coordinates end.
pub open spec fn spec_screen_cell(
    center: Location,
    width: usize,
    height: usize,
    column: usize,
    row: usize,
) -> Option<Location> {
    let x = center.x - (width / 2) + column;
    let y = center.y - (height / 2) + row;
    if i32::MIN <= x <= i32::MAX && i32::MIN <= y <= i32::MAX {
        Some(Location { x: x as i32, y: y as i32, z: center.z })
    } else {
        None
    }
}

#[verifier::when_used_as_spec(spec_screen_cell)]
pub fn screen_cell(center: Location, width: usize, height: usize, column: usize, row: usize) -> (r:
    Option<Location>)
    ensures
        r == spec_screen_cell(center, width, height, column, row),
{
    let x: i128 = center.x as i128 - (width / 2) as i128 + column as i128;
    let y: i128 = center.y as i128 - (height / 2) as i128 + row as i128;
    if -0x8000_0000 <= x && x <= 0x7fff_ffff && -0x8000_0000 <= y && y <= 0x7fff_ffff {
        Some(Location { x: x as i32, y: y as i32, z: center.z })
    } else {
        None
    }
}

/// The glyph and the colour of an item.
pub open spec fn spec_item_tile(item: Item) -> (u8, u32) {
    match item {
        Item::PotionHealth => (POTION_GLYPH, HEALTH_RED),
        Item::PotionStrength => (POTION_GLYPH, STRENGTH_GREEN),
        Item::BombBlast => (BOMB_GLYPH, BLAST_GREY),
        Item::BombIce => (BOMB_GLYPH, FROST_BLUE),
    }
}

/// The glyph and the colour of an item.
#[verifier::when_used_as_spec(spec_item_tile)]
pub fn item_tile(item: Item) -> (r: (u8, u32))
    ensures
        r == spec_item_tile(item),
{
    match item {
        Item::PotionHealth => (POTION_GLYPH, HEALTH_RED),
        Item::PotionStrength => (POTION_GLYPH, STRENGTH_GREEN),
        Item::BombBlast => (BOMB_GLYPH, BLAST_GREY),
        Item::BombIce => (BOMB_GLYPH, FROST_BLUE),
    }
}

/// The glyph and the colour of a kind of terrain.
pub open spec fn spec_terrain_tile(terrain: Terrain) -> (u8, u32) {
    match terrain {
        Terrain::Wall => (WALL_TILE, WALL_BROWN),
        Terrain::Ice => (WALL_TILE, ICE_BLUE),
        Terrain::Floor => (46u8, FLOOR_GREY),
        Terrain::StairsDown => (62u8, STAIRS_GREY),
        Terrain::StairsUp => (60u8, STAIRS_GREY),
    }
}

/// The glyph and the colour of a kind of terrain.
#[verifier::when_used_as_spec(spec_terrain_tile)]
pub fn terrain_tile(terrain: Terrain) -> (r: (u8, u32))
    ensures
        r == spec_terrain_tile(terrain),
{
    match terrain {
        Terrain::Wall => (WALL_TILE, WALL_BROWN),
        Terrain::Ice => (WALL_TILE, ICE_BLUE),
        Terrain::Floor => (46u8, FLOOR_GREY),
        Terrain::StairsDown => (62u8, STAIRS_GREY),
        Terrain::StairsUp => (60u8, STAIRS_GREY),
    }
}

impl WorldView {
    /// What a cell in sight shows: who stands on it; else the first item
    /// that lies on it; else what it is made of; and nothing at all where
    /// the map does not hold it.
    pub open spec fn tile_of(self, l: Location) -> (u8, u32) {
        if self.occupied(l) {
            let c = self.creatures[self.index_of(self.occupancy[l.key()])];
            (c.icon, c.color)
        } else if self.items_at(l).len() > 0 {
            spec_item_tile(self.items_at(l)[0])
        } else if self.terrain.contains_key(l.key()) {
            spec_terrain_tile(self.terrain[l.key()])
        } else {
            (BLANK, 0u32)
        }
    }
}

impl WorldView {
    /// What the screen shows of a cell: its tile if the player sees it,
    /// where walls and ice stop the sight; else nothing.
    pub open spec fn shown(self, l: Location) -> (u8, u32) {
        if sees(self.terrain, self.player_location, l, VIEW_RADIUS, true) {
            self.tile_of(l)
        } else {
            (BLANK, 0u32)
        }
    }

    /// The offset at which the player aims after the aim at offset
    /// `delta` was asked to move by `change`: the aim moves if the player
    /// sees the cell that it would then be on, and stays if not.
    pub open spec fn aim_moved(self, delta: Location, change: Location) -> Location {
        match delta.spec_checked_add(change) {
            Some(moved) => match self.player_location.spec_checked_add(moved) {
                Some(target) => if sees(
                    self.terrain,
                    self.player_location,
                    target,
                    VIEW_RADIUS,
                    true,
                ) {
                    moved
                } else {
                    delta
                },
                None => delta,
            },
            None => delta,
        }
    }
}

impl GameWorld {
    /// What the screen shows of the cell `l`.
    pub fn shown_at(&self, l: Location) -> (r: (u8, u32))
        requires
            self@.in_sync(),
        ensures
            r == self@.shown(l),
    {
        if can_see(&self.terrain, self.player_location, l, VIEW_RADIUS, true) {
            self.tile_at(l)
        } else {
            (BLANK, 0)
        }
    }

    /// Moves the aim of the player, now at offset `delta`, by `change`, if
    /// the player sees the cell aimed at then.
    pub fn retarget(&self, delta: Location, change: Location) -> (r: Location)
        ensures
            r == self@.aim_moved(delta, change),
    {
        match delta.checked_add(change) {
            Some(moved) => match self.player_location.checked_add(moved) {
                Some(target) => {
                    if can_see(&self.terrain, self.player_location, target, VIEW_RADIUS, true) {
                        moved
                    } else {
                        delta
                    }
                },
                None => delta,
            },
            None => delta,
        }
    }

    /// The glyph and the colour that a cell in sight shows.
    pub fn tile_at(&self, l: Location) -> (r: (u8, u32))
        requires
            self@.in_sync(),
        ensures
            r == self@.tile_of(l),
    {
        match self.occupant(l) {
            Some(id) => {
                proof {
                    let i = self@.lemma_occupant(l);
                }
                match self.index_of(id) {
                    Some(i) => (self.creature_list[i].icon, self.creature_list[i].color),
                    None => (BLANK, 0),
                }
            },
            None => {
                let first = match self.item_locations.get(&l.key()) {
                    Some(stack) => if stack.len() > 0 {
                        Some(stack[0])
                    } else {
                        None
                    },
                    None => None,
                };
                match first {
                    Some(item) => item_tile(item),
                    None => match self.terrain.get(&l.key()) {
                        Some(terrain) => terrain_tile(*terrain),
                        None => (BLANK, 0),
                    },
                }
            },
        }
    }

    /// The numbers of the status line: the hit points of the player, the
    /// number of creatures besides the player, and the floor of the player.
    pub fn status(&self) -> (r: (i32, usize, i32))
        requires
            self.wf(),
        ensures
            r.0 == self@.player().hit_points,
            r.1 == self@.creatures.len() - 1,
            r.2 == self@.player_location.z,
    {
        let p = self.player_index();
        (self.creature_list[p].hit_points, self.creature_list.len() - 1, self.player_location.z)
    }
}

} // verus!
