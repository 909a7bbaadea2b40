use kasidin::Location;

fn loc(x: i32, y: i32, z: i32) -> Location {
    Location { x, y, z }
}

#[test]
fn default_location_is_the_origin() {
    assert_eq!(Location::default(), loc(0, 0, 0));
}

#[test]
fn key_has_the_coordinates_as_digits() {
    let shift: u128 = 0x8000_0000;
    assert_eq!(loc(0, 0, 0).key(), (shift << 64) + (shift << 32) + shift);
    assert_eq!(loc(i32::MIN, i32::MIN, i32::MIN).key(), 0);
    assert_eq!(loc(i32::MIN, i32::MIN, i32::MAX).key(), 0xffff_ffff);
    assert_eq!(loc(1, -1, 2).key(), ((shift + 1) << 64) + ((shift - 1) << 32) + shift + 2);
}

#[test]
fn keys_of_different_cells_differ() {
    let cells = [
        loc(0, 0, 0),
        loc(1, 0, 0),
        loc(0, 1, 0),
        loc(0, 0, 1),
        loc(-1, 0, 0),
        loc(0, -1, 0),
        loc(0, 0, -1),
        loc(i32::MAX, i32::MIN, 0),
        loc(i32::MIN, i32::MAX, 0),
    ];
    for (i, a) in cells.iter().enumerate() {
        for (j, b) in cells.iter().enumerate() {
            assert_eq!(a.key() == b.key(), i == j);
        }
    }
}

#[test]
fn checked_add_adds_each_coordinate() {
    assert_eq!(loc(1, 2, 3).checked_add(loc(10, -20, 30)), Some(loc(11, -18, 33)));
    assert_eq!(loc(i32::MAX, 0, 0).checked_add(loc(1, 0, 0)), None);
    assert_eq!(loc(0, i32::MIN, 0).checked_add(loc(0, -1, 0)), None);
    assert_eq!(loc(0, 0, i32::MAX).checked_add(loc(0, 0, 1)), None);
    assert_eq!(loc(i32::MAX, 0, 0).checked_add(loc(0, 0, 0)), Some(loc(i32::MAX, 0, 0)));
}

#[test]
fn checked_sub_subtracts_each_coordinate() {
    assert_eq!(loc(1, 2, 3).checked_sub(loc(10, -20, 30)), Some(loc(-9, 22, -27)));
    assert_eq!(loc(i32::MIN, 0, 0).checked_sub(loc(1, 0, 0)), None);
    assert_eq!(loc(0, 0, 0).checked_sub(loc(0, i32::MIN, 0)), None);
}

#[test]
fn neighbors_come_in_the_order_east_west_north_south() {
    assert_eq!(
        loc(5, 7, -2).neighbors(),
        vec![loc(6, 7, -2), loc(4, 7, -2), loc(5, 8, -2), loc(5, 6, -2)]
    );
}

#[test]
fn neighbors_at_the_edge_of_the_range_are_fewer() {
    assert_eq!(loc(i32::MAX, 0, 0).neighbors(), vec![loc(i32::MAX - 1, 0, 0), loc(i32::MAX, 1, 0), loc(i32::MAX, -1, 0)]);
    assert_eq!(loc(i32::MIN, i32::MIN, 3).neighbors(), vec![loc(i32::MIN + 1, i32::MIN, 3), loc(i32::MIN, i32::MIN + 1, 3)]);
}

#[test]
fn neighbor_by_direction() {
    assert_eq!(loc(0, 0, 0).neighbor(0), Some(loc(1, 0, 0)));
    assert_eq!(loc(0, 0, 0).neighbor(1), Some(loc(-1, 0, 0)));
    assert_eq!(loc(0, 0, 0).neighbor(2), Some(loc(0, 1, 0)));
    assert_eq!(loc(0, 0, 0).neighbor(3), Some(loc(0, -1, 0)));
    assert_eq!(loc(0, i32::MAX, 0).neighbor(2), None);
}
