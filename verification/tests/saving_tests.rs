use kasidin::prng::PCG32;
use kasidin::{Creature, CreatureID, GameWorld, Item, Location, SavedWorld, Terrain};

type PlainCreature = (u8, u32, bool, usize, i32, i32, Vec<u8>);
type PlainSaved = (
    (i32, i32, i32),
    usize,
    Vec<PlainCreature>,
    Vec<(i32, i32, i32)>,
    Vec<(u128, Vec<u8>)>,
    Vec<(u128, u8)>,
    u64,
    i32,
);

fn terrain_number(t: Terrain) -> u8 {
    match t {
        Terrain::Wall => 0,
        Terrain::Floor => 1,
        Terrain::Ice => 2,
        Terrain::StairsDown => 3,
        Terrain::StairsUp => 4,
    }
}

fn terrain_of(n: u8) -> Terrain {
    match n {
        0 => Terrain::Wall,
        1 => Terrain::Floor,
        2 => Terrain::Ice,
        3 => Terrain::StairsDown,
        _ => Terrain::StairsUp,
    }
}

fn plain(s: &SavedWorld) -> PlainSaved {
    (
        (s.player_location.x, s.player_location.y, s.player_location.z),
        s.next_creature_id,
        s.creature_list
            .iter()
            .map(|c| {
                (
                    c.icon,
                    c.color,
                    c.is_the_player,
                    c.id.0,
                    c.hit_points,
                    c.damage_step,
                    c.inventory.iter().map(|i| i.rank() as u8).collect(),
                )
            })
            .collect(),
        s.creature_cells.iter().map(|l| (l.x, l.y, l.z)).collect(),
        s.item_stacks
            .iter()
            .map(|(k, stack)| (*k, stack.iter().map(|i| i.rank() as u8).collect()))
            .collect(),
        s.terrain_cells.iter().map(|(k, t)| (*k, terrain_number(*t))).collect(),
        s.gen.state,
        s.deepest_depth,
    )
}

fn written(p: PlainSaved) -> SavedWorld {
    SavedWorld {
        player_location: Location { x: (p.0).0, y: (p.0).1, z: (p.0).2 },
        next_creature_id: p.1,
        creature_list: p
            .2
            .into_iter()
            .map(|c| Creature {
                icon: c.0,
                color: c.1,
                is_the_player: c.2,
                id: CreatureID(c.3),
                hit_points: c.4,
                damage_step: c.5,
                inventory: c.6.into_iter().map(|r| Item::of_rank(r as usize)).collect(),
            })
            .collect(),
        creature_cells: p.3.into_iter().map(|l| Location { x: l.0, y: l.1, z: l.2 }).collect(),
        item_stacks: p
            .4
            .into_iter()
            .map(|(k, stack)| (k, stack.into_iter().map(|r| Item::of_rank(r as usize)).collect()))
            .collect(),
        terrain_cells: p.5.into_iter().map(|(k, t)| (k, terrain_of(t))).collect(),
        gen: PCG32 { state: p.6 },
        deepest_depth: p.7,
    }
}

fn same_world(a: &GameWorld, b: &GameWorld) {
    assert_eq!(a.player_location, b.player_location);
    assert_eq!(a.next_creature_id, b.next_creature_id);
    assert_eq!(a.creature_cells, b.creature_cells);
    assert_eq!(a.creature_locations, b.creature_locations);
    assert_eq!(a.item_locations, b.item_locations);
    assert_eq!(a.terrain, b.terrain);
    assert_eq!(a.gen, b.gen);
    assert_eq!(a.deepest_depth, b.deepest_depth);
    assert_eq!(a.creature_list.len(), b.creature_list.len());
    for (c, d) in a.creature_list.iter().zip(b.creature_list.iter()) {
        assert_eq!(
            (c.icon, c.color, c.is_the_player, c.id, c.hit_points, c.damage_step, &c.inventory),
            (d.icon, d.color, d.is_the_player, d.id, d.hit_points, d.damage_step, &d.inventory)
        );
    }
}

#[test]
fn a_saved_world_comes_back_as_it_was() {
    let mut w = GameWorld::new(21).unwrap();
    for _ in 0..3 {
        w.run_world_turn();
    }
    let mut loaded = GameWorld::load(w.save()).unwrap();
    same_world(&w, &loaded);
    // the loaded world goes on as the saved one does
    for step in [(1, 0), (0, 1), (-1, 0), (0, -1), (1, 0)] {
        let delta = Location { x: step.0, y: step.1, z: 0 };
        w.move_player(delta);
        loaded.move_player(delta);
        same_world(&w, &loaded);
    }
    for _ in 0..10 {
        assert_eq!(w.gen.next_u32(), loaded.gen.next_u32());
    }
}

#[test]
fn a_saved_world_comes_back_from_bytes() {
    let mut w = GameWorld::bare(5);
    for x in -2..=2 {
        for y in -2..=2 {
            assert!(w.put_terrain(Location { x, y, z: 0 }, Terrain::Floor));
        }
    }
    w.put_kestrel(Location { x: 2, y: 2, z: 0 }).unwrap();
    w.put_item(Location { x: 1, y: 0, z: 0 }, Item::BombIce);
    w.put_item(Location { x: 1, y: 0, z: 0 }, Item::PotionHealth);
    w.put_item(Location { x: -1, y: 0, z: 0 }, Item::BombBlast);
    w.move_player(Location { x: 1, y: 0, z: 0 });
    let bytes = bincode::serialize(&plain(&w.save())).unwrap();
    let back: PlainSaved = bincode::deserialize(&bytes).unwrap();
    let loaded = GameWorld::load(written(back)).unwrap();
    same_world(&w, &loaded);
    assert_eq!(loaded.player().inventory, vec![Item::BombIce, Item::PotionHealth]);
    assert_eq!(loaded.items_at(Location { x: -1, y: 0, z: 0 }), vec![Item::BombBlast]);
}

#[test]
fn what_is_written_names_each_cell_once() {
    let w = GameWorld::new(2).unwrap();
    let s = w.save();
    assert_eq!(s.terrain_cells.len(), 2500);
    let mut keys: Vec<u128> = s.terrain_cells.iter().map(|e| e.0).collect();
    keys.sort();
    keys.dedup();
    assert_eq!(keys.len(), 2500);
    assert_eq!(s.creature_list.len(), w.creature_list.len());
    assert_eq!(s.creature_cells, w.creature_cells);
    assert_eq!(s.gen, w.gen);
    let items: usize = s.item_stacks.iter().map(|e| e.1.len()).sum();
    assert_eq!(items, 50);
}

#[test]
fn what_holds_no_world_is_turned_away() {
    let w = GameWorld::new(21).unwrap();
    // a cell too few
    let mut s = w.save();
    s.creature_cells.pop();
    assert!(GameWorld::load(s).is_none());
    // two creatures on one cell
    let mut s = w.save();
    s.creature_cells[0] = s.creature_cells[1];
    assert!(GameWorld::load(s).is_none());
    // the player in a wall
    let mut s = w.save();
    let key = w.player_location.key();
    s.terrain_cells.push((key, Terrain::Wall));
    assert!(GameWorld::load(s).is_none());
    // an identifier twice
    let mut s = w.save();
    s.creature_list[0].id = s.creature_list[1].id;
    assert!(GameWorld::load(s).is_none());
    // no terrain at all
    let mut s = w.save();
    s.terrain_cells.clear();
    assert!(GameWorld::load(s).is_none());
    // bytes cut short
    let bytes = bincode::serialize(&plain(&w.save())).unwrap();
    assert!(bincode::deserialize::<PlainSaved>(&bytes[..bytes.len() / 2]).is_err());
}

#[test]
fn a_later_entry_for_a_cell_takes_the_place_of_an_earlier() {
    let w = GameWorld::bare(5);
    let mut s = w.save();
    let far = Location { x: 9, y: 9, z: 0 };
    s.terrain_cells.push((far.key(), Terrain::Ice));
    s.terrain_cells.push((far.key(), Terrain::StairsDown));
    s.item_stacks.push((far.key(), vec![Item::BombIce]));
    s.item_stacks.push((far.key(), vec![Item::PotionHealth, Item::BombBlast]));
    let loaded = GameWorld::load(s).unwrap();
    assert_eq!(loaded.terrain_at(far), Terrain::StairsDown);
    assert_eq!(loaded.items_at(far), vec![Item::PotionHealth, Item::BombBlast]);
}
