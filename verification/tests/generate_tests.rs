use kasidin::generate::{BuildError, GAME_DIMENSIONS};
use kasidin::{CreatureID, GameWorld, Item, Location, Terrain};

fn loc(x: i32, y: i32, z: i32) -> Location {
    Location { x, y, z }
}

fn check_world(w: &GameWorld) {
    assert_eq!(w.creature_list.len(), w.creature_cells.len());
    assert_eq!(w.creature_list.len(), w.creature_locations.len());
    let mut players = 0;
    for (i, c) in w.creature_list.iter().enumerate() {
        assert_eq!(w.creature_locations.get(&w.creature_cells[i].key()), Some(&c.id));
        assert!(c.id.0 >= 1 && c.id.0 < w.next_creature_id);
        for d in w.creature_list.iter().skip(i + 1) {
            assert_ne!(c.id, d.id);
        }
        assert_ne!(w.terrain_at(w.creature_cells[i]), Terrain::Wall);
        assert!(w.deepest_depth <= w.creature_cells[i].z && w.creature_cells[i].z <= 0);
        if c.is_the_player {
            players += 1;
            assert_eq!(c.id, CreatureID(1));
            assert_eq!(w.creature_cells[i], w.player_location);
        }
    }
    assert_eq!(players, 1);
}

fn open_cells_of_floor(w: &GameWorld, z: i32) -> Vec<Location> {
    let mut out = vec![];
    for y in 0..GAME_DIMENSIONS as i32 {
        for x in 0..GAME_DIMENSIONS as i32 {
            if w.terrain_at(loc(x, y, z)) != Terrain::Wall {
                out.push(loc(x, y, z));
            }
        }
    }
    out
}

fn reachable_on_floor(w: &GameWorld, start: Location) -> usize {
    let mut seen = std::collections::HashSet::new();
    let mut stack = vec![start];
    seen.insert(start);
    while let Some(c) = stack.pop() {
        for n in c.neighbors() {
            let on_grid = 0 <= n.x && n.x < 50 && 0 <= n.y && n.y < 50;
            if on_grid && w.terrain_at(n) != Terrain::Wall && seen.insert(n) {
                stack.push(n);
            }
        }
    }
    seen.len()
}

fn count_terrain(w: &GameWorld, z: i32, terrain: Terrain) -> usize {
    let mut n = 0;
    for y in 0..50 {
        for x in 0..50 {
            if w.terrain_at(loc(x, y, z)) == terrain {
                n += 1;
            }
        }
    }
    n
}

#[test]
fn a_new_world_has_one_furnished_floor_and_the_player_on_it() {
    for seed in [0u64, 7, 2018] {
        let w = GameWorld::new(seed).unwrap();
        check_world(&w);
        assert_eq!(w.deepest_depth, 0);
        assert_eq!(w.player_location.z, 0);
        assert_eq!(w.terrain_at(w.player_location), Terrain::Floor);
        assert_eq!(w.player().hit_points, 20);
        assert_eq!(w.terrain.len(), 2500);
        assert_eq!(count_terrain(&w, 0, Terrain::StairsDown), 1);
        assert_eq!(count_terrain(&w, 0, Terrain::StairsUp), 0);
        assert_eq!(count_terrain(&w, 0, Terrain::Ice), 0);
        let open = open_cells_of_floor(&w, 0);
        assert!(open.len() >= 1250);
        assert_eq!(reachable_on_floor(&w, open[0]), open.len());
        let monsters = w.creature_list.len() - 1;
        assert!(1 <= monsters && monsters <= 25);
        // 25 identifiers were handed out after the player's, used or not
        assert_eq!(w.next_creature_id, 27);
        for c in w.creature_list.iter() {
            if !c.is_the_player {
                assert!(2 <= c.id.0 && c.id.0 <= 26);
                assert_eq!((c.hit_points, c.damage_step), (8, 3));
            }
        }
        // the player is the last who came
        assert!(w.creature_list[w.creature_list.len() - 1].is_the_player);
        let mut items = 0;
        for (key, stack) in w.item_locations.iter() {
            items += stack.len();
            assert_eq!(w.terrain.get(key), Some(&Terrain::Floor));
        }
        assert_eq!(items, 50);
        for l in w.creature_cells.iter() {
            assert_eq!(w.terrain_at(*l), Terrain::Floor);
        }
    }
}

#[test]
fn same_seed_same_world() {
    let a = GameWorld::new(12).unwrap();
    let b = GameWorld::new(12).unwrap();
    assert_eq!(a.player_location, b.player_location);
    assert_eq!(a.gen, b.gen);
    assert_eq!(a.creature_cells, b.creature_cells);
    assert_eq!(a.terrain, b.terrain);
    assert_eq!(a.item_locations, b.item_locations);
    let c = GameWorld::new(13).unwrap();
    assert_ne!(a.terrain, c.terrain);
}

#[test]
fn all_kinds_of_item_lie_about() {
    let w = GameWorld::new(4).unwrap();
    let mut counts = [0usize; 4];
    for stack in w.item_locations.values() {
        for item in stack.iter() {
            counts[item.rank()] += 1;
        }
    }
    assert_eq!(counts.iter().sum::<usize>(), 50);
    assert!(counts.iter().all(|n| *n > 0));
}

#[test]
fn the_search_for_floor_finds_floor_on_the_floor_asked_for() {
    let mut w = GameWorld::new(1).unwrap();
    for _ in 0..50 {
        let gen = w.gen;
        let l = w.pick_random_floor(0);
        assert_eq!(l.z, 0);
        assert!(0 <= l.x && l.x < 50 && 0 <= l.y && l.y < 50);
        assert_eq!(w.terrain_at(l), Terrain::Floor);
        // the search finds the same cell from the same draws
        let after = w.gen;
        w.gen = gen;
        assert_eq!(w.search_random_floor(0), Some(l));
        assert_eq!(w.gen, after);
    }
    let before = w.gen;
    assert_eq!(w.search_random_floor(-3), None);
    // 5001 cells were drawn, two draws each
    let mut expected = before;
    for _ in 0..10002 {
        expected.next_u32();
    }
    assert_eq!(w.gen, expected);
}

#[test]
fn a_monster_on_the_cell_of_the_player_makes_room() {
    // the world over, the player's cell is the player's alone
    for seed in 0..12u64 {
        let w = GameWorld::new(seed).unwrap();
        check_world(&w);
        assert_eq!(w.occupant(w.player_location), Some(CreatureID(1)));
    }
}

#[test]
fn stairs_down_on_the_deepest_floor_lead_to_a_new_floor() {
    let mut w = GameWorld::bare(8);
    for x in 0..=5 {
        assert!(w.put_terrain(loc(x, 0, 0), Terrain::Floor));
    }
    for y in 0..=5 {
        assert!(w.put_terrain(loc(5, y, 0), Terrain::Floor));
    }
    assert!(w.put_terrain(loc(5, 5, 0), Terrain::StairsDown));
    for _ in 0..5 {
        w.move_player(loc(1, 0, 0));
    }
    for _ in 0..5 {
        w.move_player(loc(0, 1, 0));
    }
    assert_eq!(w.player_location, loc(5, 5, 0));
    let next_before = w.next_creature_id;
    assert_eq!(w.change_floor(-1), Ok(()));
    check_world(&w);
    assert_eq!(w.deepest_depth, -1);
    assert_eq!(w.player_location, loc(5, 5, -1));
    assert_eq!(w.terrain_at(loc(5, 5, -1)), Terrain::StairsUp);
    for n in loc(5, 5, -1).neighbors() {
        let t = w.terrain_at(n);
        assert!(t == Terrain::Floor || t == Terrain::StairsDown);
    }
    assert_eq!(count_terrain(&w, -1, Terrain::StairsUp), 1);
    assert_eq!(count_terrain(&w, -1, Terrain::StairsDown), 1);
    let open = open_cells_of_floor(&w, -1);
    assert!(open.len() >= 1250);
    assert_eq!(reachable_on_floor(&w, loc(5, 5, -1)), open.len());
    // whoever is new has an identifier not handed out before, greater
    // than that of everybody before it in the list, and came to stand on
    // a floor cell of the new floor
    assert_eq!(w.next_creature_id, next_before + 25);
    assert!(w.creature_list.len() > 1);
    assert!(w.creature_list[0].is_the_player);
    for (i, c) in w.creature_list.iter().enumerate() {
        if !c.is_the_player {
            assert!(c.id.0 >= next_before);
            assert!(c.id.0 > w.creature_list[i - 1].id.0);
            assert_eq!(w.creature_cells[i].z, -1);
        }
    }
    // the floor above is as it was
    assert_eq!(w.terrain_at(loc(5, 5, 0)), Terrain::StairsDown);
    assert_eq!(w.terrain_at(loc(0, 0, 0)), Terrain::Floor);
    // and back up
    let monsters = w.creature_list.len();
    assert_eq!(w.change_floor(1), Ok(()));
    assert_eq!(w.deepest_depth, -1);
    if w.player_location.z == 0 {
        assert_eq!(w.player_location, loc(5, 5, 0));
    }
    assert!(w.creature_list.len() <= monsters);
    check_world(&w);
    // stairs down above the deepest floor make no new floor
    if w.player_location.z == 0 {
        let terrain = w.terrain.len();
        assert_eq!(w.change_floor(-1), Ok(()));
        assert_eq!(w.deepest_depth, -1);
        assert_eq!(w.terrain.len(), terrain);
    }
}

#[test]
fn stairs_at_the_rim_lead_nowhere() {
    let mut w = GameWorld::bare(8);
    assert!(w.put_terrain(loc(1, 0, 0), Terrain::StairsDown));
    w.move_player(loc(1, 0, 0));
    let gen = w.gen;
    assert_eq!(w.change_floor(-1), Err(BuildError::NoCave));
    assert_eq!(w.player_location, loc(1, 0, 0));
    assert_eq!(w.deepest_depth, 0);
    assert_eq!(w.gen, gen);
    assert_eq!(w.add_z_layer(Some(loc(49, 20, 0))), Err(BuildError::NoCave));
    check_world(&w);
}

#[test]
fn a_floor_without_floor_cells_cannot_be_furnished() {
    let mut w = GameWorld::bare(8);
    assert!(w.put_terrain(loc(0, 0, 0), Terrain::Ice));
    let before = w.gen;
    assert_eq!(w.furnish(), Err(BuildError::NoFloor));
    // nothing changed but the generator: 5001 cells drawn, two draws each
    assert_eq!(w.creature_list.len(), 1);
    assert_eq!(w.next_creature_id, 2);
    assert_eq!(w.terrain.len(), 1);
    assert_eq!(w.terrain_at(loc(0, 0, 0)), Terrain::Ice);
    assert!(w.item_locations.is_empty());
    let mut expected = before;
    for _ in 0..10002 {
        expected.next_u32();
    }
    assert_eq!(w.gen, expected);
    check_world(&w);
}

#[test]
fn a_floor_is_furnished_wholly_or_not_at_all() {
    // with seed 0 the 432nd cell drawn is the one floor cell there is: the
    // stairs down go there, and then no floor is left for the monsters
    let mut w = GameWorld::bare(0);
    w.put_item(loc(3, 3, 0), Item::BombIce);
    assert_eq!(w.furnish(), Err(BuildError::NoFloor));
    assert_eq!(w.terrain_at(loc(0, 0, 0)), Terrain::Floor);
    assert_eq!(w.terrain.len(), 1);
    assert_eq!(w.creature_list.len(), 1);
    assert_eq!(w.creature_cells, vec![loc(0, 0, 0)]);
    assert_eq!(w.creature_locations.len(), 1);
    assert_eq!(w.next_creature_id, 2);
    assert_eq!(w.deepest_depth, 0);
    assert_eq!(w.items_at(loc(3, 3, 0)), vec![Item::BombIce]);
    assert_eq!(w.item_locations.len(), 1);
    assert_eq!(w.gen.state, 4031422824488901348);
    check_world(&w);
    assert!(w.is_playable());
}

#[test]
fn a_floor_can_be_added_by_hand() {
    let mut w = GameWorld::new(3).unwrap();
    let monsters = w.creature_list.len();
    let stairs = open_cells_of_floor(&w, 0)
        .into_iter()
        .find(|l| w.terrain_at(*l) == Terrain::StairsDown)
        .unwrap();
    let result = w.add_z_layer(Some(stairs));
    if 1 <= stairs.x && stairs.x < 49 && 1 <= stairs.y && stairs.y < 49 {
        assert_eq!(result, Ok(()));
        assert_eq!(w.deepest_depth, -1);
        assert_eq!(w.terrain_at(loc(stairs.x, stairs.y, -1)), Terrain::StairsUp);
        assert_eq!(w.terrain.len(), 5000);
        assert!(w.creature_list.len() > monsters);
        assert_eq!(w.next_creature_id, 52);
        let mut items = 0;
        for stack in w.item_locations.values() {
            items += stack.len();
        }
        assert_eq!(items, 100);
    } else {
        assert_eq!(result, Err(BuildError::NoCave));
    }
    check_world(&w);
}

#[test]
fn items_of_a_kind_pile_up() {
    let mut w = GameWorld::bare(1);
    w.put_item(loc(0, 0, 0), Item::BombIce);
    w.put_item(loc(0, 0, 0), Item::BombIce);
    assert_eq!(w.items_at(loc(0, 0, 0)), vec![Item::BombIce, Item::BombIce]);
    assert_eq!(w.take_items(loc(0, 0, 0)), vec![Item::BombIce, Item::BombIce]);
    assert_eq!(w.items_at(loc(0, 0, 0)), vec![]);
}
