use kasidin::creature::{apply_potion, Creature, CreatureID};
use kasidin::item::{catalog, count_items, item_for_letter, letter_place, take_one, Item};
use kasidin::prng::PCG32;
use kasidin::terrain::Terrain;
use kasidin::{BOMB_GLYPH, KESTREL_RED, POTION_GLYPH, TERULO_BROWN, WALL_TILE};

#[test]
fn potions_are_potions_and_bombs_are_not() {
    assert!(Item::PotionHealth.is_potion());
    assert!(Item::PotionStrength.is_potion());
    assert!(!Item::BombBlast.is_potion());
    assert!(!Item::BombIce.is_potion());
}

#[test]
fn items_have_their_names() {
    assert_eq!(Item::PotionHealth.name(), "Potion of Restore Health");
    assert_eq!(Item::PotionStrength.name(), "Potion of Gain Strength");
    assert_eq!(Item::BombBlast.name(), "Blast Bomb");
    assert_eq!(Item::BombIce.name(), "Ice Bomb");
}

#[test]
fn items_rank_in_listing_order() {
    let kinds = [Item::PotionHealth, Item::PotionStrength, Item::BombBlast, Item::BombIce];
    for (i, kind) in kinds.iter().enumerate() {
        assert_eq!(kind.rank(), i);
        assert_eq!(Item::of_rank(i), *kind);
    }
    assert!(Item::PotionHealth < Item::PotionStrength);
    assert!(Item::BombBlast < Item::BombIce);
}

#[test]
fn catalog_lists_kinds_in_order_with_counts() {
    let inv = vec![Item::BombIce, Item::PotionStrength, Item::BombIce, Item::PotionHealth, Item::BombIce];
    assert_eq!(
        catalog(&inv),
        vec![(Item::PotionHealth, 1), (Item::PotionStrength, 1), (Item::BombIce, 3)]
    );
    assert_eq!(catalog(&vec![]), vec![]);
    assert_eq!(count_items(&inv, Item::BombIce), 3);
    assert_eq!(count_items(&inv, Item::BombBlast), 0);
}

#[test]
fn letters_select_the_kinds_held() {
    let inv = vec![Item::BombIce, Item::PotionStrength, Item::BombIce];
    assert_eq!(item_for_letter(&inv, 'a'), Some(Item::PotionStrength));
    assert_eq!(item_for_letter(&inv, 'b'), Some(Item::BombIce));
    assert_eq!(item_for_letter(&inv, 'c'), None);
    assert_eq!(item_for_letter(&inv, 'z'), None);
    assert_eq!(item_for_letter(&inv, 'A'), None);
    assert_eq!(item_for_letter(&inv, '1'), None);
    assert_eq!(item_for_letter(&inv, '\u{161}'), None);
    assert_eq!(item_for_letter(&vec![], 'a'), None);
}

#[test]
fn letter_place_counts_from_a() {
    assert_eq!(letter_place('a'), Some(0));
    assert_eq!(letter_place('d'), Some(3));
    assert_eq!(letter_place('z'), Some(25));
    assert_eq!(letter_place('`'), None);
    assert_eq!(letter_place('{'), None);
    assert_eq!(letter_place('Q'), None);
}

#[test]
fn take_one_takes_the_first_of_the_kind() {
    let mut inv = vec![Item::BombIce, Item::PotionStrength, Item::BombIce, Item::PotionHealth];
    take_one(&mut inv, Item::BombIce);
    assert_eq!(inv, vec![Item::PotionStrength, Item::BombIce, Item::PotionHealth]);
    take_one(&mut inv, Item::BombBlast);
    assert_eq!(inv, vec![Item::PotionStrength, Item::BombIce, Item::PotionHealth]);
    take_one(&mut inv, Item::PotionHealth);
    assert_eq!(inv, vec![Item::PotionStrength, Item::BombIce]);
}

#[test]
fn new_creatures_have_their_numbers() {
    let c = Creature::new(7, b'x', 5);
    assert_eq!((c.icon, c.color, c.is_the_player, c.id, c.hit_points, c.damage_step), (b'x', 5, false, CreatureID(7), 1, 1));
    assert!(c.inventory.is_empty());
    let p = Creature::new_player(1);
    assert_eq!((p.icon, p.color, p.is_the_player, p.id, p.hit_points, p.damage_step), (b'@', TERULO_BROWN, true, CreatureID(1), 20, 5));
    let k = Creature::new_kestrel(9);
    assert_eq!((k.icon, k.color, k.is_the_player, k.id, k.hit_points, k.damage_step), (b'k', KESTREL_RED, false, CreatureID(9), 8, 3));
}

#[test]
fn potion_of_health_heals_by_the_roll() {
    let mut c = Creature::new_player(1);
    c.hit_points = 10;
    // a generator in state 0 rolls 1 of 8, then 4 of 8
    let mut gen = PCG32 { state: 0 };
    apply_potion(&Item::PotionHealth, &mut c, &mut gen);
    assert_eq!(c.hit_points, 11);
    assert_eq!(gen.state, 1442695040888963407);
    apply_potion(&Item::PotionHealth, &mut c, &mut gen);
    assert_eq!(c.hit_points, 15);
    assert_eq!(c.damage_step, 5);
}

#[test]
fn potion_of_health_stops_at_thirty() {
    let mut c = Creature::new_player(1);
    c.hit_points = 25;
    // a generator in the greatest state rolls 8 of 8
    let mut gen = PCG32 { state: u64::MAX };
    apply_potion(&Item::PotionHealth, &mut c, &mut gen);
    assert_eq!(c.hit_points, 30);
    apply_potion(&Item::PotionHealth, &mut c, &mut gen);
    assert_eq!(c.hit_points, 30);
}

#[test]
fn potion_of_health_heals_between_one_and_eight() {
    let mut gen = PCG32::new(5);
    for _ in 0..300 {
        let mut c = Creature::new_kestrel(2);
        c.hit_points = -40;
        apply_potion(&Item::PotionHealth, &mut c, &mut gen);
        assert!(-39 <= c.hit_points && c.hit_points <= -32);
    }
}

#[test]
fn potion_of_strength_adds_one_and_draws_nothing() {
    let mut c = Creature::new_player(1);
    let mut gen = PCG32::new(3);
    let before = gen;
    apply_potion(&Item::PotionStrength, &mut c, &mut gen);
    assert_eq!(c.damage_step, 6);
    assert_eq!(c.hit_points, 20);
    assert_eq!(gen, before);
    c.damage_step = i32::MAX;
    apply_potion(&Item::PotionStrength, &mut c, &mut gen);
    assert_eq!(c.damage_step, i32::MAX);
}

#[test]
fn damage_takes_hit_points_down_to_the_least() {
    let mut c = Creature::new_kestrel(2);
    c.take_damage(10);
    assert_eq!(c.hit_points, -2);
    c.hit_points = i32::MIN + 3;
    c.take_damage(10);
    assert_eq!(c.hit_points, i32::MIN);
}

#[test]
fn terrain_blocks_what_it_should() {
    assert_eq!(Terrain::default(), Terrain::Wall);
    let all = [Terrain::Wall, Terrain::Floor, Terrain::Ice, Terrain::StairsDown, Terrain::StairsUp];
    let sight = [true, false, true, false, false];
    let route = [true, false, false, false, false];
    for i in 0..5 {
        assert_eq!(all[i].blocks_sight(), sight[i]);
        assert_eq!(all[i].blocks_step(), sight[i]);
        assert_eq!(all[i].blocks_route(), route[i]);
    }
}

#[test]
fn glyphs_are_where_the_tile_set_has_them() {
    assert_eq!(WALL_TILE, 219);
    assert_eq!(POTION_GLYPH, 173);
    assert_eq!(BOMB_GLYPH, 15);
}
