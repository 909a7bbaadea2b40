use kasidin::sight::{can_see, disk_cells, is_opaque, line_is_clear, terrain_or_wall, visible_cells, within_disk};
use kasidin::{Location, Terrain};
use std::collections::HashMap;

fn loc(x: i32, y: i32) -> Location {
    Location { x, y, z: 0 }
}

fn room(x0: i32, x1: i32, y0: i32, y1: i32) -> HashMap<u128, Terrain> {
    let mut t = HashMap::new();
    for x in x0..=x1 {
        for y in y0..=y1 {
            t.insert(loc(x, y).key(), Terrain::Floor);
        }
    }
    t
}

#[test]
fn unknown_cells_read_as_wall() {
    let mut t = room(0, 2, 0, 2);
    assert_eq!(terrain_or_wall(&t, loc(1, 1)), Terrain::Floor);
    assert_eq!(terrain_or_wall(&t, loc(9, 9)), Terrain::Wall);
    assert_eq!(terrain_or_wall(&t, Location { x: 1, y: 1, z: -1 }), Terrain::Wall);
    assert_eq!(t.len(), 9);
    t.insert(loc(1, 1).key(), Terrain::Ice);
    assert!(is_opaque(&t, loc(1, 1), true));
    assert!(!is_opaque(&t, loc(1, 1), false));
    assert!(is_opaque(&t, loc(9, 9), false));
    assert!(!is_opaque(&t, loc(0, 0), true));
}

#[test]
fn disk_is_round() {
    assert!(within_disk(loc(0, 0), loc(7, 0), 7));
    assert!(!within_disk(loc(0, 0), loc(8, 0), 7));
    assert!(within_disk(loc(0, 0), loc(-4, 5), 7));
    assert!(!within_disk(loc(0, 0), loc(5, 5), 7));
    assert!(within_disk(loc(3, 3), loc(3, 3), 0));
    assert!(!within_disk(loc(3, 3), Location { x: 3, y: 3, z: 1 }, 5));
}

#[test]
fn disk_cells_count() {
    assert_eq!(disk_cells(loc(4, 4), 0), vec![loc(4, 4)]);
    assert_eq!(
        disk_cells(loc(4, 4), 1),
        vec![loc(4, 3), loc(3, 4), loc(4, 4), loc(5, 4), loc(4, 5)]
    );
    assert_eq!(disk_cells(loc(0, 0), 2).len(), 13);
    assert_eq!(disk_cells(loc(0, 0), 7).len(), 149);
    let at_edge = disk_cells(Location { x: i32::MAX, y: i32::MIN, z: 0 }, 1);
    assert_eq!(at_edge.len(), 3);
}

#[test]
fn sight_in_an_open_room() {
    let t = room(-8, 8, -8, 8);
    assert!(can_see(&t, loc(0, 0), loc(0, 0), 7, true));
    assert!(can_see(&t, loc(0, 0), loc(7, 0), 7, true));
    assert!(can_see(&t, loc(0, 0), loc(-3, 4), 7, true));
    assert!(!can_see(&t, loc(0, 0), loc(8, 0), 7, true));
    assert!(!can_see(&t, loc(0, 0), loc(5, 5), 7, true));
    let seen = visible_cells(&t, loc(0, 0), 7, true);
    assert_eq!(seen.len(), 149);
    // row by row, from west to east
    assert_eq!(seen[0], loc(0, -7));
    assert_eq!(seen[1], loc(-3, -6));
    assert_eq!(seen[148], loc(0, 7));
    for i in 1..seen.len() {
        let (a, b) = (seen[i - 1], seen[i]);
        assert!(a.y < b.y || (a.y == b.y && a.x < b.x));
    }
}

#[test]
fn walls_stop_the_sight_and_ice_does_if_asked() {
    let mut t = room(0, 6, 0, 0);
    assert!(can_see(&t, loc(0, 0), loc(6, 0), 7, true));
    t.insert(loc(3, 0).key(), Terrain::Ice);
    assert!(!can_see(&t, loc(0, 0), loc(6, 0), 7, true));
    assert!(can_see(&t, loc(0, 0), loc(6, 0), 7, false));
    // what stops the sight is seen itself
    assert!(can_see(&t, loc(0, 0), loc(3, 0), 7, true));
    t.insert(loc(3, 0).key(), Terrain::Wall);
    assert!(!can_see(&t, loc(0, 0), loc(6, 0), 7, false));
    assert!(can_see(&t, loc(0, 0), loc(3, 0), 7, false));
    assert!(!can_see(&t, loc(0, 0), loc(4, 0), 7, false));
}

#[test]
fn sight_does_not_pass_between_two_walls_that_touch_at_a_corner() {
    // . #
    // # .
    let mut t = HashMap::new();
    t.insert(loc(0, 0).key(), Terrain::Floor);
    t.insert(loc(1, 1).key(), Terrain::Floor);
    t.insert(loc(1, 0).key(), Terrain::Wall);
    t.insert(loc(0, 1).key(), Terrain::Wall);
    assert!(!can_see(&t, loc(0, 0), loc(1, 1), 7, true));
    t.insert(loc(1, 0).key(), Terrain::Floor);
    assert!(can_see(&t, loc(0, 0), loc(1, 1), 7, true));
}

#[test]
fn seeing_is_mutual() {
    let mut t = room(-5, 5, -5, 5);
    t.insert(loc(1, 1).key(), Terrain::Wall);
    t.insert(loc(-2, 0).key(), Terrain::Wall);
    t.insert(loc(0, 3).key(), Terrain::Ice);
    t.insert(loc(2, -1).key(), Terrain::Wall);
    for ax in -5..=5 {
        for ay in -5..=5 {
            for (bx, by) in [(0, 0), (3, 2), (-4, 1), (2, -3)] {
                let a = loc(ax, ay);
                let b = loc(bx, by);
                assert_eq!(can_see(&t, a, b, 7, true), can_see(&t, b, a, 7, true));
            }
        }
    }
}

#[test]
fn visible_cells_are_those_that_can_be_seen() {
    let mut t = room(-4, 4, -4, 4);
    t.insert(loc(1, 0).key(), Terrain::Wall);
    t.insert(loc(0, 2).key(), Terrain::Wall);
    t.insert(loc(-1, -1).key(), Terrain::Ice);
    let seen = visible_cells(&t, loc(0, 0), 3, true);
    let mut count = 0;
    for x in -6..=6 {
        for y in -6..=6 {
            let expected = can_see(&t, loc(x, y), loc(0, 0), 3, true);
            assert_eq!(seen.contains(&loc(x, y)), expected);
            if expected {
                count += 1;
            }
        }
    }
    assert_eq!(seen.len(), count);
    assert!(seen.contains(&loc(0, 0)));
    assert!(seen.contains(&loc(1, 0)));
    assert!(!seen.contains(&loc(2, 0)));
}

#[test]
fn a_line_of_one_step_is_always_clear() {
    let t: HashMap<u128, Terrain> = HashMap::new();
    assert!(line_is_clear(&t, loc(0, 0), loc(1, 0), true));
    assert!(line_is_clear(&t, loc(0, 0), loc(0, 0), true));
    assert!(!line_is_clear(&t, loc(0, 0), loc(2, 0), true));
}
