use kasidin::display::{listing, screen_cell, BLANK, FLOOR_GREY, FROST_BLUE, HEALTH_RED, ICE_BLUE, STAIRS_GREY, WALL_BROWN};
use kasidin::prng::PCG32;
use kasidin::{CreatureID, GameWorld, Item, Location, Terrain, UseItemResult};

fn loc(x: i32, y: i32) -> Location {
    Location { x, y, z: 0 }
}

/// A bare world with floor on the cells from (x0, y0) to (x1, y1).
fn room(x0: i32, x1: i32, y0: i32, y1: i32) -> GameWorld {
    let mut w = GameWorld::bare(1);
    for x in x0..=x1 {
        for y in y0..=y1 {
            assert!(w.put_terrain(loc(x, y), Terrain::Floor));
        }
    }
    w
}

fn hit_points_of(w: &GameWorld, id: CreatureID) -> i32 {
    w.creature(id).unwrap().hit_points
}

fn check_world(w: &GameWorld) {
    assert_eq!(w.creature_list.len(), w.creature_cells.len());
    assert_eq!(w.creature_list.len(), w.creature_locations.len());
    let mut players = 0;
    for (i, c) in w.creature_list.iter().enumerate() {
        assert_eq!(w.creature_locations.get(&w.creature_cells[i].key()), Some(&c.id));
        assert!(c.id.0 >= 1 && c.id.0 < w.next_creature_id);
        for d in w.creature_list.iter().skip(i + 1) {
            assert_ne!(c.id, d.id);
        }
        assert_ne!(w.terrain_at(w.creature_cells[i]), Terrain::Wall);
        if c.is_the_player {
            players += 1;
            assert_eq!(c.id, CreatureID(1));
            assert_eq!(w.creature_cells[i], w.player_location);
        }
    }
    assert_eq!(players, 1);
}

#[test]
fn bare_world_holds_the_player_alone() {
    let w = GameWorld::bare(3);
    check_world(&w);
    assert_eq!(w.player_location, loc(0, 0));
    assert_eq!(w.creature_list.len(), 1);
    assert_eq!(w.next_creature_id, 2);
    assert_eq!(w.deepest_depth, 0);
    assert_eq!(w.terrain_at(loc(0, 0)), Terrain::Floor);
    assert_eq!(w.gen, PCG32::new(3));
    let p = w.player();
    assert_eq!((p.hit_points, p.damage_step, p.id), (20, 5, CreatureID(1)));
    assert_eq!(w.occupant(loc(0, 0)), Some(CreatureID(1)));
    assert_eq!(w.occupant(loc(1, 0)), None);
    assert_eq!(w.cell_of(CreatureID(1)), Some(loc(0, 0)));
    assert_eq!(w.cell_of(CreatureID(2)), None);
    assert!(w.creature(CreatureID(5)).is_none());
}

#[test]
fn terrain_may_not_wall_anybody_in() {
    let mut w = room(-1, 1, -1, 1);
    assert!(!w.put_terrain(loc(0, 0), Terrain::Wall));
    assert_eq!(w.terrain_at(loc(0, 0)), Terrain::Floor);
    assert!(w.put_terrain(loc(0, 0), Terrain::Ice));
    assert!(w.put_terrain(loc(1, 0), Terrain::Wall));
    assert!(w.put_terrain(loc(1, 1), Terrain::StairsUp));
    assert!(w.put_terrain(Location { x: 1, y: 1, z: -1 }, Terrain::Wall));
    check_world(&w);
}

#[test]
fn kestrels_need_room() {
    let mut w = room(-1, 1, -1, 1);
    assert_eq!(w.put_kestrel(loc(0, 0)), None);
    assert_eq!(w.put_kestrel(loc(5, 5)), None);
    assert_eq!(w.put_kestrel(Location { x: 1, y: 1, z: 1 }), None);
    assert_eq!(w.next_creature_id, 2);
    assert_eq!(w.put_kestrel(loc(1, 1)), Some(CreatureID(2)));
    assert_eq!(w.put_kestrel(loc(1, 1)), None);
    assert_eq!(w.put_kestrel(loc(-1, 1)), Some(CreatureID(3)));
    assert_eq!(w.next_creature_id, 4);
    assert_eq!(w.cell_of(CreatureID(3)), Some(loc(-1, 1)));
    assert_eq!(hit_points_of(&w, CreatureID(2)), 8);
    check_world(&w);
}

#[test]
fn bumping_into_a_wall_takes_no_turn() {
    let mut w = room(-3, 3, -3, 3);
    assert!(w.put_terrain(loc(1, 0), Terrain::Wall));
    let k = w.put_kestrel(loc(-3, 3)).unwrap();
    let gen = w.gen;
    w.move_player(loc(1, 0));
    assert_eq!(w.player_location, loc(0, 0));
    assert_eq!(w.cell_of(k), Some(loc(-3, 3)));
    assert_eq!(w.gen, gen);
    assert_eq!(w.terrain_at(loc(1, 0)), Terrain::Wall);
    check_world(&w);
}

#[test]
fn bumping_into_ice_takes_no_turn() {
    let mut w = room(-3, 3, -3, 3);
    assert!(w.put_terrain(loc(0, 1), Terrain::Ice));
    let k = w.put_kestrel(loc(3, -3)).unwrap();
    let gen = w.gen;
    w.move_player(loc(0, 1));
    assert_eq!(w.player_location, loc(0, 0));
    assert_eq!(w.cell_of(k), Some(loc(3, -3)));
    assert_eq!(w.gen, gen);
}

#[test]
fn walking_onto_items_picks_them_up() {
    let mut w = room(-3, 3, -3, 3);
    w.put_item(loc(1, 0), Item::PotionHealth);
    w.put_item(loc(1, 0), Item::BombIce);
    assert_eq!(w.items_at(loc(1, 0)), vec![Item::PotionHealth, Item::BombIce]);
    w.move_player(loc(1, 0));
    assert_eq!(w.player_location, loc(1, 0));
    assert_eq!(w.player().inventory, vec![Item::PotionHealth, Item::BombIce]);
    assert_eq!(w.items_at(loc(1, 0)), vec![]);
    assert_eq!(w.occupant(loc(0, 0)), None);
    assert_eq!(w.occupant(loc(1, 0)), Some(CreatureID(1)));
    // more items go behind those held
    w.put_item(loc(1, 1), Item::BombBlast);
    w.move_player(loc(0, 1));
    assert_eq!(w.player().inventory, vec![Item::PotionHealth, Item::BombIce, Item::BombBlast]);
    check_world(&w);
}

#[test]
fn an_unknown_cell_is_wall_to_the_eye_and_floor_to_the_foot() {
    let mut w = GameWorld::bare(1);
    assert_eq!(w.terrain_at(loc(0, 1)), Terrain::Wall);
    assert_eq!(w.terrain.len(), 1);
    w.move_player(loc(0, 1));
    assert_eq!(w.player_location, loc(0, 1));
    assert_eq!(w.terrain_at(loc(0, 1)), Terrain::Floor);
    assert_eq!(w.terrain.len(), 2);
    assert_eq!(w.tread(loc(5, 5)), Terrain::Floor);
    assert_eq!(w.terrain_at(loc(5, 5)), Terrain::Floor);
    check_world(&w);
}

#[test]
fn a_step_off_the_range_of_coordinates_is_no_step() {
    let mut w = GameWorld::bare(1);
    let gen = w.gen;
    w.move_player(Location { x: i32::MAX, y: 0, z: 0 });
    assert_eq!(w.player_location, loc(i32::MAX, 0));
    w.move_player(loc(1, 0));
    assert_eq!(w.player_location, loc(i32::MAX, 0));
    assert_eq!(w.gen, gen);
}

#[test]
fn using_a_letter_that_selects_nothing_changes_nothing() {
    let mut w = room(-3, 3, -3, 3);
    let k = w.put_kestrel(loc(3, 3)).unwrap();
    let gen = w.gen;
    assert_eq!(w.use_item('a'), UseItemResult::NoSuchItem);
    assert_eq!(w.player().hit_points, 20);
    assert_eq!(w.player().damage_step, 5);
    assert!(w.player().inventory.is_empty());
    assert_eq!(w.cell_of(k), Some(loc(3, 3)));
    assert_eq!(w.gen, gen);
}

#[test]
fn potions_are_drunk_and_bombs_ask_for_a_target() {
    let mut w = room(-3, 3, -3, 3);
    w.put_item(loc(1, 0), Item::BombIce);
    w.put_item(loc(1, 0), Item::PotionStrength);
    w.put_item(loc(1, 0), Item::PotionHealth);
    w.put_item(loc(1, 0), Item::BombIce);
    w.move_player(loc(1, 0));
    // a: health, b: strength, c: ice bomb
    assert_eq!(w.use_item('d'), UseItemResult::NoSuchItem);
    assert_eq!(w.use_item('c'), UseItemResult::ItemNeedsTarget);
    assert_eq!(w.player().inventory.len(), 4);
    assert_eq!(w.use_item('b'), UseItemResult::ItemUsed);
    assert_eq!(w.player().damage_step, 6);
    assert_eq!(w.player().inventory, vec![Item::BombIce, Item::PotionHealth, Item::BombIce]);
    w.creature_list[0].hit_points = 10;
    w.gen = PCG32 { state: 0 };
    assert_eq!(w.use_item('a'), UseItemResult::ItemUsed);
    assert_eq!(w.player().hit_points, 11);
    assert_eq!(w.gen, PCG32 { state: 1442695040888963407 });
    assert_eq!(w.player().inventory, vec![Item::BombIce, Item::BombIce]);
    // now the ice bombs are under a
    assert_eq!(w.use_item('a'), UseItemResult::ItemNeedsTarget);
    assert_eq!(w.use_item('b'), UseItemResult::NoSuchItem);
    check_world(&w);
}

#[test]
fn the_player_strikes_whoever_stands_in_the_way() {
    let mut w = room(-3, 3, -3, 3);
    let k = w.put_kestrel(loc(1, 0)).unwrap();
    // the greatest state rolls 5 of 5 for the player, then 3 of 3 for the kestrel
    w.gen = PCG32 { state: u64::MAX };
    w.move_player(loc(1, 0));
    assert_eq!(w.player_location, loc(0, 0));
    assert_eq!(w.cell_of(k), Some(loc(1, 0)));
    assert_eq!(hit_points_of(&w, k), 3);
    assert_eq!(w.player().hit_points, 17);
    assert_eq!(w.gen, PCG32 { state: 12801857353207693129 });
    w.gen = PCG32 { state: u64::MAX };
    w.move_player(loc(1, 0));
    // the kestrel is dead before its turn, and gone after it
    assert!(w.creature(k).is_none());
    assert_eq!(w.occupant(loc(1, 0)), None);
    assert_eq!(w.player().hit_points, 17);
    assert_eq!(w.gen, PCG32 { state: 13525302890751722018 });
    check_world(&w);
}

#[test]
fn a_monster_that_sees_the_player_comes_nearer() {
    let mut w = room(0, 6, -1, 1);
    let k = w.put_kestrel(loc(4, 1)).unwrap();
    let gen = w.gen;
    w.run_world_turn();
    // of the shortest ways the one to the west comes before the one to the south
    assert_eq!(w.cell_of(k), Some(loc(3, 1)));
    assert_eq!(w.gen, gen);
    w.run_world_turn();
    w.run_world_turn();
    assert_eq!(w.cell_of(k), Some(loc(1, 1)));
    w.run_world_turn();
    assert_eq!(w.cell_of(k), Some(loc(0, 1)));
    assert_eq!(w.player().hit_points, 20);
    w.gen = PCG32 { state: 0 };
    w.run_world_turn();
    // beside the player it strikes: 1 of 3 from state 0
    assert_eq!(w.cell_of(k), Some(loc(0, 1)));
    assert_eq!(w.player().hit_points, 19);
    check_world(&w);
}

#[test]
fn a_monster_that_sees_no_player_wanders() {
    let mut w = room(0, 6, -1, 1);
    for y in -1..=1 {
        assert!(w.put_terrain(loc(2, y), Terrain::Wall));
    }
    let k = w.put_kestrel(loc(4, 0)).unwrap();
    // two top bits 0: north
    w.gen = PCG32 { state: 0 };
    w.run_world_turn();
    assert_eq!(w.cell_of(k), Some(loc(4, 1)));
    assert_eq!(w.gen, PCG32 { state: 1442695040888963407 });
    // two top bits 1: south
    w.run_world_turn();
    assert_eq!(w.cell_of(k), Some(loc(4, 0)));
    // two top bits 3: west
    w.run_world_turn();
    assert_eq!(w.cell_of(k), Some(loc(3, 0)));
    // two top bits 1: south
    w.run_world_turn();
    assert_eq!(w.cell_of(k), Some(loc(3, -1)));
    // two top bits 2: east
    w.run_world_turn();
    assert_eq!(w.cell_of(k), Some(loc(4, -1)));
    check_world(&w);
}

#[test]
fn a_wandering_monster_stops_at_walls_and_treads_new_floor() {
    let mut w = room(0, 6, -1, 1);
    for y in -1..=1 {
        assert!(w.put_terrain(loc(2, y), Terrain::Wall));
    }
    let k = w.put_kestrel(loc(3, 1)).unwrap();
    // north of the room nothing is known: the kestrel treads floor there
    w.gen = PCG32 { state: 0 };
    w.run_world_turn();
    assert_eq!(w.cell_of(k), Some(loc(3, 2)));
    assert_eq!(w.terrain_at(loc(3, 2)), Terrain::Floor);
    let mut v = room(0, 6, -1, 1);
    for y in -1..=1 {
        assert!(v.put_terrain(loc(2, y), Terrain::Wall));
    }
    let k = v.put_kestrel(loc(3, 0)).unwrap();
    // two top bits 3: west, into the wall
    v.gen = PCG32 { state: u64::MAX };
    v.run_world_turn();
    assert_eq!(v.cell_of(k), Some(loc(3, 0)));
    assert_eq!(v.gen, PCG32 { state: 13525302890751722018 });
}

#[test]
fn monsters_do_not_hurt_each_other_but_spend_the_roll() {
    let mut w = room(0, 6, -1, 1);
    for y in -1..=1 {
        assert!(w.put_terrain(loc(2, y), Terrain::Wall));
    }
    let a = w.put_kestrel(loc(4, 0)).unwrap();
    let b = w.put_kestrel(loc(4, 1)).unwrap();
    // a wanders north into b: one draw for the way, one for the blow; then
    // b wanders west with the third draw
    w.gen = PCG32 { state: 0 };
    w.run_world_turn();
    assert_eq!(w.cell_of(a), Some(loc(4, 0)));
    assert_eq!(hit_points_of(&w, b), 8);
    assert_eq!(w.cell_of(b), Some(loc(3, 1)));
    assert_eq!(w.gen, PCG32 { state: 11166244414315200793 });
    check_world(&w);
}

#[test]
fn the_dead_are_swept_away_but_the_player_stays() {
    let mut w = room(-3, 3, -3, 3);
    let a = w.put_kestrel(loc(2, 2)).unwrap();
    let b = w.put_kestrel(loc(-2, -2)).unwrap();
    let i = w.index_of(a).unwrap();
    w.creature_list[i].hit_points = 0;
    let p = w.player_index();
    w.creature_list[p].hit_points = -4;
    assert_eq!(w.initiative(), vec![b]);
    w.run_world_turn();
    assert!(w.creature(a).is_none());
    assert_eq!(w.occupant(loc(2, 2)), None);
    assert!(w.creature(b).is_some());
    assert!(w.player().hit_points <= -4);
    assert_eq!(w.occupant(w.player_location), Some(CreatureID(1)));
    assert_eq!(w.creature_list.len(), 2);
    check_world(&w);
}

#[test]
fn an_ice_bomb_freezes_floor_and_takes_monsters_away() {
    let mut w = room(-3, 5, -3, 3);
    w.put_item(loc(1, 0), Item::BombIce);
    w.move_player(loc(1, 0));
    let k = w.put_kestrel(loc(2, 0)).unwrap();
    let far = w.put_kestrel(loc(5, 3)).unwrap();
    w.put_item(loc(2, 0), Item::PotionHealth);
    w.put_item(loc(2, 1), Item::BombBlast);
    assert!(w.put_terrain(loc(3, 0), Terrain::StairsDown));
    assert_eq!(w.use_item('a'), UseItemResult::ItemNeedsTarget);
    w.use_targeted_item('a', loc(1, 0));
    assert!(w.creature(k).is_none());
    assert_eq!(w.occupant(loc(2, 0)), None);
    assert_eq!(w.terrain_at(loc(2, 0)), Terrain::Ice);
    assert_eq!(w.items_at(loc(2, 0)), vec![]);
    // the cells beside freeze too, floor only
    assert_eq!(w.terrain_at(loc(2, 1)), Terrain::Ice);
    assert_eq!(w.items_at(loc(2, 1)), vec![]);
    assert_eq!(w.terrain_at(loc(2, -1)), Terrain::Ice);
    assert_eq!(w.terrain_at(loc(3, 0)), Terrain::StairsDown);
    assert_eq!(w.terrain_at(loc(3, 1)), Terrain::Floor);
    // the player stays, on ice
    assert_eq!(w.terrain_at(loc(1, 0)), Terrain::Ice);
    assert_eq!(w.player_location, loc(1, 0));
    assert_eq!(w.occupant(loc(1, 0)), Some(CreatureID(1)));
    assert!(w.player().inventory.is_empty());
    assert!(w.creature(far).is_some());
    check_world(&w);
}

#[test]
fn a_blast_thaws_ice_and_hurts_whom_it_reaches() {
    let mut w = room(-1, 6, -2, 2);
    w.put_item(loc(1, 0), Item::BombBlast);
    w.move_player(loc(1, 0));
    let k = w.put_kestrel(loc(4, 0)).unwrap();
    assert!(w.put_terrain(loc(4, 1), Terrain::Ice));
    assert!(w.put_terrain(loc(6, 0), Terrain::Ice));
    assert!(w.put_terrain(loc(6, 2), Terrain::Ice));
    // the greatest state rolls 10 of 10
    w.gen = PCG32 { state: u64::MAX };
    w.use_targeted_item('a', loc(3, 0));
    assert!(w.creature(k).is_none());
    assert_eq!(w.occupant(loc(4, 0)), None);
    assert_eq!(w.terrain_at(loc(4, 1)), Terrain::Floor);
    assert_eq!(w.terrain_at(loc(6, 0)), Terrain::Floor);
    assert_eq!(w.terrain_at(loc(6, 2)), Terrain::Ice);
    assert_eq!(w.player().hit_points, 20);
    assert!(w.player().inventory.is_empty());
    assert_eq!(w.gen, PCG32 { state: 13525302890751722018 });
    check_world(&w);
}

#[test]
fn a_blast_hurts_the_player_too() {
    let mut w = room(-1, 6, -2, 2);
    w.put_item(loc(1, 0), Item::BombBlast);
    w.move_player(loc(1, 0));
    let k = w.put_kestrel(loc(2, 0)).unwrap();
    // state 0 rolls 1 of 10 for the player, 4 of 10 for the kestrel, and
    // 3 of 3 for the kestrel's blow in the turn that follows
    w.gen = PCG32 { state: 0 };
    w.use_targeted_item('a', loc(1, 0));
    assert_eq!(hit_points_of(&w, k), 4);
    assert_eq!(w.player().hit_points, 16);
    assert_eq!(w.gen, PCG32 { state: 11166244414315200793 });
    check_world(&w);
}

#[test]
fn a_blast_does_not_reach_behind_walls() {
    let mut w = room(-1, 6, -2, 2);
    w.put_item(loc(1, 0), Item::BombBlast);
    w.move_player(loc(1, 0));
    for y in -2..=2 {
        assert!(w.put_terrain(loc(4, y), Terrain::Wall));
    }
    let k = w.put_kestrel(loc(5, 0)).unwrap();
    assert!(w.put_terrain(loc(5, 1), Terrain::Ice));
    w.gen = PCG32 { state: u64::MAX };
    w.use_targeted_item('a', loc(2, 0));
    assert_eq!(hit_points_of(&w, k), 8);
    assert_eq!(w.terrain_at(loc(5, 1)), Terrain::Ice);
    assert_eq!(w.terrain_at(loc(4, 0)), Terrain::Wall);
    // nothing unknown was written into the map
    assert_eq!(w.terrain_at(loc(3, 3)), Terrain::Wall);
    assert_eq!(w.tread(loc(3, 3)), Terrain::Floor);
}

#[test]
fn changing_floor_needs_stairs() {
    let mut w = room(-3, 3, -3, 3);
    let gen = w.gen;
    assert_eq!(w.change_floor(-1), Ok(()));
    assert_eq!(w.change_floor(1), Ok(()));
    assert_eq!(w.player_location, loc(0, 0));
    assert_eq!(w.deepest_depth, 0);
    assert_eq!(w.gen, gen);
    assert!(w.put_terrain(loc(1, 0), Terrain::StairsDown));
    w.move_player(loc(1, 0));
    // stairs down do not lead up, and only one floor at a time
    assert_eq!(w.change_floor(1), Ok(()));
    assert_eq!(w.change_floor(-2), Ok(()));
    assert_eq!(w.change_floor(0), Ok(()));
    assert_eq!(w.player_location, loc(1, 0));
    assert_eq!(w.deepest_depth, 0);
}

#[test]
fn nothing_leads_up_from_the_first_floor() {
    let mut w = room(-3, 3, -3, 3);
    assert!(w.put_terrain(loc(1, 0), Terrain::StairsUp));
    w.move_player(loc(1, 0));
    assert_eq!(w.player_location, loc(1, 0));
    let gen = w.gen;
    assert_eq!(w.change_floor(1), Ok(()));
    assert_eq!(w.player_location, loc(1, 0));
    assert_eq!(w.gen, gen);
}

#[test]
fn worlds_made_by_the_library_are_playable() {
    let mut w = room(-3, 3, -3, 3);
    assert!(w.is_playable());
    let k = w.put_kestrel(loc(2, 2)).unwrap();
    w.put_item(loc(1, 0), Item::BombIce);
    w.move_player(loc(1, 0));
    w.run_world_turn();
    assert!(w.is_playable());
    assert!(w.creature(k).is_some());
}

#[test]
fn broken_worlds_are_not_playable() {
    let fresh = || {
        let mut w = room(-3, 3, -3, 3);
        w.put_kestrel(loc(2, 2)).unwrap();
        w.put_kestrel(loc(-2, 2)).unwrap();
        w
    };
    assert!(fresh().is_playable());
    // a creature without a cell in the map
    let mut w = fresh();
    w.creature_locations.remove(&loc(2, 2).key());
    assert!(!w.is_playable());
    // a cell in the map without a creature
    let mut w = fresh();
    w.creature_locations.insert(loc(3, 3).key(), CreatureID(2));
    assert!(!w.is_playable());
    // the map names another creature
    let mut w = fresh();
    w.creature_locations.insert(loc(2, 2).key(), CreatureID(3));
    assert!(!w.is_playable());
    // an identifier twice
    let mut w = fresh();
    w.creature_list[2].id = CreatureID(2);
    w.creature_locations.insert(loc(-2, 2).key(), CreatureID(2));
    assert!(!w.is_playable());
    // an identifier not handed out yet
    let mut w = fresh();
    w.next_creature_id = 3;
    assert!(!w.is_playable());
    // two players, or none
    let mut w = fresh();
    w.creature_list[1].is_the_player = true;
    assert!(!w.is_playable());
    let mut w = fresh();
    w.creature_list[0].is_the_player = false;
    assert!(!w.is_playable());
    // the player is elsewhere
    let mut w = fresh();
    w.player_location = loc(1, 1);
    assert!(!w.is_playable());
    // somebody in a wall, or nowhere known
    let mut w = fresh();
    w.terrain.insert(loc(2, 2).key(), Terrain::Wall);
    assert!(!w.is_playable());
    let mut w = fresh();
    w.terrain.remove(&loc(0, 0).key());
    assert!(!w.is_playable());
    // somebody below the deepest floor, or above the first
    let mut w = fresh();
    w.deepest_depth = 1;
    assert!(!w.is_playable());
    // a damage step of nothing
    let mut w = fresh();
    w.creature_list[1].damage_step = 0;
    assert!(!w.is_playable());
    // lists of different lengths
    let mut w = fresh();
    w.creature_cells.pop();
    assert!(!w.is_playable());
}

#[test]
fn tiles_show_who_stands_what_lies_and_what_is() {
    let mut w = room(-3, 3, -3, 3);
    w.put_kestrel(loc(2, 2)).unwrap();
    w.put_item(loc(2, 2), Item::BombIce);
    w.put_item(loc(1, 1), Item::PotionHealth);
    w.put_item(loc(1, 1), Item::BombIce);
    w.put_item(loc(-1, 1), Item::BombIce);
    assert!(w.put_terrain(loc(3, 3), Terrain::Wall));
    assert!(w.put_terrain(loc(3, 2), Terrain::Ice));
    assert!(w.put_terrain(loc(3, 1), Terrain::StairsDown));
    assert!(w.put_terrain(loc(3, 0), Terrain::StairsUp));
    assert_eq!(w.tile_at(loc(0, 0)), (b'@', kasidin::TERULO_BROWN));
    assert_eq!(w.tile_at(loc(2, 2)), (b'k', kasidin::KESTREL_RED));
    assert_eq!(w.tile_at(loc(1, 1)), (kasidin::POTION_GLYPH, HEALTH_RED));
    assert_eq!(w.tile_at(loc(-1, 1)), (kasidin::BOMB_GLYPH, FROST_BLUE));
    assert_eq!(w.tile_at(loc(3, 3)), (kasidin::WALL_TILE, WALL_BROWN));
    assert_eq!(w.tile_at(loc(3, 2)), (kasidin::WALL_TILE, ICE_BLUE));
    assert_eq!(w.tile_at(loc(3, 1)), (b'>', STAIRS_GREY));
    assert_eq!(w.tile_at(loc(3, 0)), (b'<', STAIRS_GREY));
    assert_eq!(w.tile_at(loc(-3, -3)), (b'.', FLOOR_GREY));
    assert_eq!(w.tile_at(loc(9, 9)), (BLANK, 0));
    assert_eq!(w.status(), (20, 1, 0));
}

#[test]
fn the_identifier_of_the_dead_is_not_handed_out_again() {
    let mut w = room(-3, 3, -3, 3);
    let first = w.put_kestrel(loc(2, 2)).unwrap();
    assert_eq!(first, CreatureID(2));
    let i = w.index_of(first).unwrap();
    w.creature_list[i].hit_points = 0;
    w.run_world_turn();
    assert!(w.creature(first).is_none());
    assert_eq!(w.next_creature_id, 3);
    let second = w.put_kestrel(loc(2, 2)).unwrap();
    assert_eq!(second, CreatureID(3));
    let third = w.put_kestrel(loc(-2, 2)).unwrap();
    assert_eq!(third, CreatureID(4));
    check_world(&w);
}

#[test]
fn the_screen_shows_what_the_player_sees() {
    let mut w = room(-3, 3, -3, 3);
    assert!(w.put_terrain(loc(1, 0), Terrain::Wall));
    w.put_kestrel(loc(3, 0)).unwrap();
    w.put_kestrel(loc(0, 3)).unwrap();
    assert_eq!(w.shown_at(loc(0, 0)), (b'@', kasidin::TERULO_BROWN));
    assert_eq!(w.shown_at(loc(1, 0)), (kasidin::WALL_TILE, WALL_BROWN));
    // behind the wall nothing is seen
    assert_eq!(w.shown_at(loc(3, 0)), (BLANK, 0));
    assert_eq!(w.shown_at(loc(0, 3)), (b'k', kasidin::KESTREL_RED));
    // the rim of the known world is seen as it is: unknown
    assert_eq!(w.shown_at(loc(0, 4)), (BLANK, 0));
}

#[test]
fn the_screen_has_the_player_in_the_middle() {
    let center = Location { x: 10, y: -4, z: -2 };
    assert_eq!(screen_cell(center, 66, 50, 33, 25), Some(center));
    assert_eq!(screen_cell(center, 66, 50, 0, 0), Some(Location { x: -23, y: -29, z: -2 }));
    assert_eq!(screen_cell(center, 66, 50, 65, 49), Some(Location { x: 42, y: 20, z: -2 }));
    let edge = Location { x: i32::MAX, y: i32::MIN, z: 0 };
    assert_eq!(screen_cell(edge, 66, 50, 34, 25), None);
    assert_eq!(screen_cell(edge, 66, 50, 33, 24), None);
    assert_eq!(screen_cell(edge, 66, 50, 33, 25), Some(edge));
}

#[test]
fn the_aim_moves_only_where_the_player_sees() {
    let mut w = room(-3, 3, -3, 3);
    assert!(w.put_terrain(loc(2, 0), Terrain::Wall));
    let origin = loc(0, 0);
    let east = loc(1, 0);
    assert_eq!(w.retarget(origin, east), loc(1, 0));
    assert_eq!(w.retarget(loc(1, 0), east), loc(2, 0));
    // behind the wall the aim does not go
    assert_eq!(w.retarget(loc(2, 0), east), loc(2, 0));
    assert_eq!(w.retarget(loc(2, 0), loc(0, 1)), loc(2, 1));
    assert_eq!(w.retarget(loc(i32::MAX, 0), east), loc(i32::MAX, 0));
}

#[test]
fn the_listing_letters_the_kinds_held() {
    let inv = vec![Item::BombIce, Item::PotionStrength, Item::BombIce];
    assert_eq!(listing(&inv), vec![('a', Item::PotionStrength, 1), ('b', Item::BombIce, 2)]);
    assert_eq!(listing(&vec![]), vec![]);
    let all = vec![Item::BombIce, Item::BombBlast, Item::PotionStrength, Item::PotionHealth];
    assert_eq!(
        listing(&all),
        vec![
            ('a', Item::PotionHealth, 1),
            ('b', Item::PotionStrength, 1),
            ('c', Item::BombBlast, 1),
            ('d', Item::BombIce, 1)
        ]
    );
}

#[test]
fn a_step_off_the_floors_made_is_no_step() {
    let mut w = room(-3, 3, -3, 3);
    let k = w.put_kestrel(loc(3, 3)).unwrap();
    let gen = w.gen;
    w.move_player(Location { x: 0, y: 0, z: -1 });
    w.move_player(Location { x: 0, y: 0, z: 1 });
    w.move_player(Location { x: 1, y: 0, z: 5 });
    assert_eq!(w.player_location, loc(0, 0));
    assert_eq!(w.cell_of(k), Some(loc(3, 3)));
    assert_eq!(w.gen, gen);
    assert_eq!(w.terrain_at(Location { x: 0, y: 0, z: -1 }), Terrain::Wall);
    check_world(&w);
}

#[test]
fn a_bomb_thrown_off_the_range_of_coordinates_is_spent_for_nothing() {
    let mut w = GameWorld::bare(1);
    let edge = loc(i32::MAX, 0);
    w.put_item(edge, Item::BombBlast);
    w.put_item(edge, Item::BombIce);
    w.move_player(edge);
    assert_eq!(w.player_location, edge);
    let gen = w.gen;
    w.use_targeted_item('a', loc(1, 0));
    assert_eq!(w.player().inventory, vec![Item::BombIce]);
    assert_eq!(w.player().hit_points, 20);
    w.use_targeted_item('a', loc(0, i32::MAX));
    assert!(w.player().inventory.is_empty());
    assert_eq!(w.terrain_at(edge), Terrain::Floor);
    assert_eq!(w.gen, gen);
    check_world(&w);
}

#[test]
fn frost_falls_on_the_centre_and_the_four_cells_beside_it() {
    let mut w = room(-3, 5, -3, 3);
    w.put_item(loc(1, 0), Item::BombIce);
    w.move_player(loc(1, 0));
    assert!(w.put_terrain(loc(3, 1), Terrain::StairsDown));
    assert!(w.put_terrain(loc(4, 0), Terrain::Wall));
    for x in -3..=5 {
        for y in -3..=3 {
            w.put_item(loc(x, y), Item::PotionHealth);
        }
    }
    w.use_targeted_item('a', loc(2, 0));
    for x in -3..=5 {
        for y in -3..=3 {
            let l = loc(x, y);
            let reached = (x - 3).abs() + y.abs() <= 1;
            let was_floor = l != loc(3, 1) && l != loc(4, 0);
            if reached && was_floor {
                assert_eq!(w.terrain_at(l), Terrain::Ice);
                assert_eq!(w.items_at(l), vec![]);
            } else {
                assert_ne!(w.terrain_at(l), Terrain::Ice);
                assert_eq!(w.items_at(l), vec![Item::PotionHealth]);
            }
        }
    }
    assert_eq!(w.terrain_at(loc(3, 1)), Terrain::StairsDown);
    assert_eq!(w.terrain_at(loc(4, 0)), Terrain::Wall);
    check_world(&w);
}
