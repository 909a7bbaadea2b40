use kasidin::pathing::{first_step, shortest_path, survey};
use kasidin::{Location, Terrain};
use std::collections::HashMap;

fn loc(x: i32, y: i32) -> Location {
    Location { x, y, z: 0 }
}

fn map_of(rows: &[&str]) -> HashMap<u128, Terrain> {
    let mut t = HashMap::new();
    for (y, row) in rows.iter().enumerate() {
        for (x, c) in row.chars().enumerate() {
            let terrain = match c {
                '#' => Terrain::Wall,
                '~' => Terrain::Ice,
                '>' => Terrain::StairsDown,
                '<' => Terrain::StairsUp,
                _ => Terrain::Floor,
            };
            t.insert(loc(x as i32, y as i32).key(), terrain);
        }
    }
    t
}

fn check_route(t: &HashMap<u128, Terrain>, p: &Vec<Location>, from: Location, to: Location) {
    assert_eq!(p[0], from);
    assert_eq!(p[p.len() - 1], to);
    for c in p.iter() {
        assert_ne!(*t.get(&c.key()).unwrap(), Terrain::Wall);
    }
    for i in 0..p.len() - 1 {
        let d = (p[i].x - p[i + 1].x).abs() + (p[i].y - p[i + 1].y).abs();
        assert_eq!(d, 1);
        assert_eq!(p[i].z, p[i + 1].z);
    }
}

#[test]
fn straight_route() {
    let t = map_of(&["....."]);
    let p = shortest_path(&t, loc(0, 0), loc(4, 0)).unwrap();
    assert_eq!(p, vec![loc(0, 0), loc(1, 0), loc(2, 0), loc(3, 0), loc(4, 0)]);
    assert_eq!(first_step(&t, loc(0, 0), loc(4, 0)), Some(loc(1, 0)));
    assert_eq!(first_step(&t, loc(4, 0), loc(0, 0)), Some(loc(3, 0)));
}

#[test]
fn route_to_oneself_has_no_step() {
    let t = map_of(&["..."]);
    assert_eq!(shortest_path(&t, loc(1, 0), loc(1, 0)), Some(vec![loc(1, 0)]));
    assert_eq!(first_step(&t, loc(1, 0), loc(1, 0)), None);
}

#[test]
fn route_around_a_wall_is_shortest() {
    let t = map_of(&[
        ".......",
        ".#####.",
        ".#...#.",
        ".#.#.#.",
        "...#...",
    ]);
    let from = loc(2, 4);
    let to = loc(4, 4);
    let p = shortest_path(&t, from, to).unwrap();
    check_route(&t, &p, from, to);
    // up the left shaft, across, down the right shaft
    assert_eq!(p.len(), 7);
    assert_eq!(p, vec![loc(2, 4), loc(2, 3), loc(2, 2), loc(3, 2), loc(4, 2), loc(4, 3), loc(4, 4)]);
}

#[test]
fn no_route_through_walls_or_off_the_map() {
    let t = map_of(&["..#.."]);
    assert_eq!(shortest_path(&t, loc(0, 0), loc(4, 0)), None);
    assert_eq!(first_step(&t, loc(0, 0), loc(4, 0)), None);
    // a start or a goal that is wall or unknown has no route
    assert_eq!(shortest_path(&t, loc(2, 0), loc(0, 0)), None);
    assert_eq!(shortest_path(&t, loc(0, 0), loc(2, 0)), None);
    assert_eq!(shortest_path(&t, loc(0, 0), loc(0, 5)), None);
    assert_eq!(shortest_path(&t, loc(0, 0), Location { x: 1, y: 0, z: 1 }), None);
}

#[test]
fn routes_lead_over_ice_and_stairs() {
    let t = map_of(&[".~<>."]);
    let p = shortest_path(&t, loc(0, 0), loc(4, 0)).unwrap();
    assert_eq!(p.len(), 5);
}

#[test]
fn among_shortest_routes_east_comes_first() {
    let t = map_of(&["...", "...", "..."]);
    // east before west before north before south: +x, -x, +y, -y
    assert_eq!(shortest_path(&t, loc(0, 0), loc(1, 1)), Some(vec![loc(0, 0), loc(1, 0), loc(1, 1)]));
    assert_eq!(shortest_path(&t, loc(2, 2), loc(1, 1)), Some(vec![loc(2, 2), loc(1, 2), loc(1, 1)]));
    assert_eq!(shortest_path(&t, loc(0, 2), loc(1, 1)), Some(vec![loc(0, 2), loc(1, 2), loc(1, 1)]));
    assert_eq!(first_step(&t, loc(2, 0), loc(0, 2)), Some(loc(1, 0)));
}

#[test]
fn first_step_is_the_second_cell_of_the_route() {
    let t = map_of(&[
        "......",
        ".##.#.",
        ".#..#.",
        ".#.##.",
        "......",
    ]);
    for (fx, fy) in [(0, 0), (5, 4), (2, 2), (3, 1), (0, 4)] {
        for (tx, ty) in [(5, 0), (2, 3), (0, 2), (3, 2)] {
            let from = loc(fx, fy);
            let to = loc(tx, ty);
            if from == to {
                continue;
            }
            let p = shortest_path(&t, from, to).unwrap();
            check_route(&t, &p, from, to);
            assert_eq!(first_step(&t, from, to), Some(p[1]));
            let back = shortest_path(&t, to, from).unwrap();
            assert_eq!(back.len(), p.len());
        }
    }
}

#[test]
fn survey_counts_the_steps() {
    let t = map_of(&["....", ".##.", "...."]);
    let (seen, steps) = survey(&t, loc(0, 0), loc(3, 2));
    assert_eq!(steps, Some(5));
    assert_eq!(seen.get(&loc(0, 0).key()), Some(&0));
    assert_eq!(seen.get(&loc(3, 0).key()), Some(&3));
    assert_eq!(seen.get(&loc(0, 2).key()), Some(&2));
    assert_eq!(seen.get(&loc(1, 1).key()), None);
    let (_, none) = survey(&t, loc(0, 0), loc(1, 1));
    assert_eq!(none, None);
}
