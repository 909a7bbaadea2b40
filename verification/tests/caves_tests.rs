use kasidin::caves::{attempt, find_seed, flood, make_cellular_caves, CaveGrid};
use kasidin::prng::PCG32;

fn grid_of(rows: &[&str]) -> CaveGrid {
    CaveGrid { rows: rows.iter().map(|r| r.chars().map(|c| c == '#').collect()).collect() }
}

fn picture(grid: &CaveGrid) -> Vec<String> {
    grid.rows.iter().map(|r| r.iter().map(|w| if *w { '#' } else { '.' }).collect()).collect()
}

fn open_cells(grid: &CaveGrid) -> Vec<(usize, usize)> {
    let mut out = vec![];
    for (y, row) in grid.rows.iter().enumerate() {
        for (x, wall) in row.iter().enumerate() {
            if !*wall {
                out.push((x, y));
            }
        }
    }
    out
}

fn reachable_from(grid: &CaveGrid, start: (usize, usize)) -> usize {
    let h = grid.rows.len();
    let w = grid.rows[0].len();
    let mut seen = vec![vec![false; w]; h];
    let mut stack = vec![start];
    seen[start.1][start.0] = true;
    let mut n = 0;
    while let Some((x, y)) = stack.pop() {
        n += 1;
        let mut next = vec![];
        if x > 0 {
            next.push((x - 1, y));
        }
        if x + 1 < w {
            next.push((x + 1, y));
        }
        if y > 0 {
            next.push((x, y - 1));
        }
        if y + 1 < h {
            next.push((x, y + 1));
        }
        for (a, b) in next {
            if !grid.rows[b][a] && !seen[b][a] {
                seen[b][a] = true;
                stack.push((a, b));
            }
        }
    }
    n
}

#[test]
fn off_the_grid_is_wall() {
    let g = grid_of(&["..", ".#"]);
    assert!(!g.is_wall(0, 0));
    assert!(g.is_wall(1, 1));
    assert!(g.is_wall(-1, 0));
    assert!(g.is_wall(0, -1));
    assert!(g.is_wall(2, 0));
    assert!(g.is_wall(0, 2));
    assert!(g.is_wall(i64::MAX, i64::MIN));
}

#[test]
fn filled_grid_has_the_size_and_the_fill() {
    let g = CaveGrid::filled(4, 3, true);
    assert_eq!(picture(&g), vec!["####", "####", "####"]);
    assert_eq!(g.height(), 3);
    let g = CaveGrid::filled(2, 2, false);
    assert_eq!(picture(&g), vec!["..", ".."]);
}

#[test]
fn walls_are_counted_around_the_cell() {
    let g = grid_of(&[
        ".......",
        ".#.....",
        "..#....",
        ".......",
        "....#..",
        ".......",
        ".......",
    ]);
    // the cell itself does not count
    assert_eq!(g.count_walls(2, 2, 1), 1);
    assert_eq!(g.count_walls(2, 2, 2), 2);
    assert_eq!(g.count_walls(3, 3, 1), 2);
    assert_eq!(g.count_walls(3, 3, 2), 3);
    // what lies off the grid counts as wall
    assert_eq!(g.count_walls(0, 0, 1), 6);
    assert_eq!(g.count_walls(0, 0, 2), 18);
    assert_eq!(g.count_walls(3, 0, 1), 3);
    assert_eq!(g.count_walls(6, 6, 2), 17);
}

#[test]
fn smoothing_walls_in_corners_and_fills_wide_open_space() {
    let g = grid_of(&["...", "...", "..."]);
    assert_eq!(picture(&g.smooth(3, 3)), vec!["#.#", "...", "#.#"]);
    let g = CaveGrid::filled(7, 7, false);
    assert_eq!(
        picture(&g.smooth(7, 7)),
        vec!["#.....#", ".......", "..###..", "..###..", "..###..", ".......", "#.....#"]
    );
}

#[test]
fn smoothing_rounds_off_corners_and_opens_lone_walls() {
    let g = grid_of(&[
        "#######",
        "#######",
        "##...##",
        "##.#.##",
        "##...##",
        "#######",
        "#######",
    ]);
    assert_eq!(
        picture(&g.smooth(7, 7)),
        vec!["#######", "#######", "###.###", "##...##", "###.###", "#######", "#######"]
    );
}

#[test]
fn noise_takes_one_draw_per_cell_row_by_row() {
    let mut gen = PCG32::new(1);
    let g = CaveGrid::noise(3, 2, &mut gen);
    // seed 1 rolls 33, 42, 3, 46, 26 of a hundred, then 16
    let mut again = PCG32::new(1);
    let rolls: Vec<u32> = (0..6).map(|_| again.roll(1, 100)).collect();
    assert_eq!(&rolls[0..5], &[33, 42, 3, 46, 26]);
    let expected: Vec<Vec<bool>> = vec![
        rolls[0..3].iter().map(|r| *r <= 45).collect(),
        rolls[3..6].iter().map(|r| *r <= 45).collect(),
    ];
    assert_eq!(g.rows, expected);
    assert_eq!(g.rows[0], vec![true, true, true]);
    assert_eq!(g.rows[1][0], false);
    assert_eq!(gen, again);
}

#[test]
fn flood_keeps_one_region_and_walls_up_the_rest() {
    let g = grid_of(&[
        "#######",
        "#..#..#",
        "#..#..#",
        "#.##..#",
        "#######",
    ]);
    let (left, n) = flood(&g, 7, 5, 1, 1);
    assert_eq!(picture(&left), vec!["#######", "#..####", "#..####", "#.#####", "#######"]);
    assert_eq!(n, 5);
    let (right, n) = flood(&g, 7, 5, 5, 3);
    assert_eq!(picture(&right), vec!["#######", "####..#", "####..#", "####..#", "#######"]);
    assert_eq!(n, 6);
}

#[test]
fn flood_does_not_run_onto_the_rim() {
    let g = CaveGrid::filled(5, 4, false);
    let (inner, n) = flood(&g, 5, 4, 2, 1);
    assert_eq!(picture(&inner), vec!["#####", "#...#", "#...#", "#####"]);
    assert_eq!(n, 6);
    // a flood that starts on the rim keeps its start
    let (from_rim, n) = flood(&g, 5, 4, 0, 1);
    assert_eq!(picture(&from_rim), vec!["#####", "....#", "#...#", "#####"]);
    assert_eq!(n, 7);
    let (corner, n) = flood(&g, 5, 4, 0, 0);
    assert_eq!(picture(&corner), vec![".####", "#####", "#####", "#####"]);
    assert_eq!(n, 1);
}

#[test]
fn seed_search_finds_an_open_cell_or_gives_up() {
    let g = grid_of(&["####", "#.##", "####"]);
    let mut gen = PCG32::new(4);
    assert_eq!(find_seed(&g, 4, 3, &mut gen), Some((1, 1)));
    let solid = CaveGrid::filled(4, 3, true);
    let mut gen = PCG32::new(4);
    let before = gen;
    assert_eq!(find_seed(&solid, 4, 3, &mut gen), None);
    // 101 cells were drawn, two draws each
    let mut expected = before;
    for _ in 0..202 {
        expected.next_u32();
    }
    assert_eq!(gen, expected);
}

#[test]
fn caves_are_half_open_and_in_one_piece() {
    for seed in [0u64, 1, 2, 2018] {
        let mut gen = PCG32::new(seed);
        let cave = make_cellular_caves(50, 50, &mut gen).unwrap();
        assert_eq!(cave.rows.len(), 50);
        assert!(cave.rows.iter().all(|r| r.len() == 50));
        let open = open_cells(&cave);
        assert!(open.len() >= 1250);
        assert_eq!(reachable_from(&cave, open[0]), open.len());
        assert_eq!(reachable_from(&cave, open[open.len() - 1]), open.len());
    }
}

#[test]
fn caves_of_other_sizes() {
    let mut gen = PCG32::new(11);
    let cave = make_cellular_caves(30, 20, &mut gen).unwrap();
    assert_eq!(cave.rows.len(), 20);
    assert!(cave.rows.iter().all(|r| r.len() == 30));
    let open = open_cells(&cave);
    assert!(open.len() >= 300);
    assert_eq!(reachable_from(&cave, open[0]), open.len());
}

#[test]
fn same_seed_same_cave() {
    let mut a = PCG32::new(99);
    let mut b = PCG32::new(99);
    let first = make_cellular_caves(50, 50, &mut a).unwrap();
    let second = make_cellular_caves(50, 50, &mut b).unwrap();
    assert_eq!(first.rows, second.rows);
    assert_eq!(a, b);
    let third = make_cellular_caves(50, 50, &mut a).unwrap();
    assert_ne!(first.rows, third.rows);
}

#[test]
fn a_grid_too_small_for_a_cave_gives_none() {
    // three by three: the flood keeps two cells at most, and four are asked
    let mut gen = PCG32::new(5);
    assert!(make_cellular_caves(3, 3, &mut gen).is_none());
    let mut gen = PCG32::new(5);
    assert!(attempt(3, 3, &mut gen).is_none());
}

#[test]
fn a_grid_of_one_cell_is_a_cave_of_its_own() {
    let mut gen = PCG32::new(5);
    let cave = make_cellular_caves(1, 1, &mut gen).unwrap();
    assert_eq!(cave.rows.len(), 1);
    assert_eq!(cave.rows[0].len(), 1);
}

#[test]
fn a_size_that_cannot_be_held_makes_no_cave_and_takes_no_draw() {
    let mut gen = PCG32::new(5);
    let before = gen;
    assert!(make_cellular_caves(usize::MAX, 2, &mut gen).is_none());
    assert_eq!(gen, before);
    assert!(make_cellular_caves(2, usize::MAX, &mut gen).is_none());
    assert_eq!(gen, before);
}
