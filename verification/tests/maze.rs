use grid_sims::carve::{carve_maze, dig, moves_from};
use grid_sims::coords::{shift, Coords};
use grid_sims::display::{glyph, mark_path, render};
use grid_sims::grid::{create_filled, in_bounds, is_open, is_wall, open, try_offset, Cell, Grid};
use grid_sims::solve::solve_bfs;
use rand::rngs::StdRng;
use rand::SeedableRng;
use std::collections::VecDeque;

fn at(x: usize, y: usize) -> Coords {
    Coords { x, y }
}

/// A grid from rows of text: `#` is a wall, anything else is open.
fn grid_from(rows: &[&str]) -> Grid {
    let width = rows[0].chars().count();
    let mut map = create_filled(rows.len(), width);
    for (y, row) in rows.iter().enumerate() {
        for (x, ch) in row.chars().enumerate() {
            if ch != '#' {
                open(&mut map, at(x, y));
            }
        }
    }
    map
}

/// Distance in steps from `s` to `g` over open cells, by plain search.
fn oracle_distance(map: &Grid, s: Coords, g: Coords) -> Option<usize> {
    if !in_bounds(map, s) || !in_bounds(map, g) || !is_open(map, s) || !is_open(map, g) {
        return None;
    }
    let (h, w) = (map.height(), map.width());
    let mut dist: Vec<Vec<Option<usize>>> = vec![vec![None; w]; h];
    let mut queue = VecDeque::new();
    dist[s.y][s.x] = Some(0);
    queue.push_back(s);
    while let Some(c) = queue.pop_front() {
        let d = dist[c.y][c.x].unwrap();
        let mut around = Vec::new();
        if c.x > 0 {
            around.push(at(c.x - 1, c.y));
        }
        if c.x + 1 < w {
            around.push(at(c.x + 1, c.y));
        }
        if c.y > 0 {
            around.push(at(c.x, c.y - 1));
        }
        if c.y + 1 < h {
            around.push(at(c.x, c.y + 1));
        }
        for n in around {
            if is_open(map, n) && dist[n.y][n.x].is_none() {
                dist[n.y][n.x] = Some(d + 1);
                queue.push_back(n);
            }
        }
    }
    dist[g.y][g.x]
}

fn assert_valid_path(map: &Grid, path: &[Coords], s: Coords, g: Coords) {
    assert!(!path.is_empty());
    assert_eq!(path[0], s);
    assert_eq!(path[path.len() - 1], g);
    for p in path {
        assert!(in_bounds(map, *p));
        assert!(is_open(map, *p));
    }
    for pair in path.windows(2) {
        let dx = pair[0].x.abs_diff(pair[1].x);
        let dy = pair[0].y.abs_diff(pair[1].y);
        assert_eq!(dx + dy, 1);
    }
}

fn count_open(map: &Grid) -> usize {
    let mut n = 0;
    for y in 0..map.height() {
        for x in 0..map.width() {
            if is_open(map, at(x, y)) {
                n += 1;
            }
        }
    }
    n
}

/// Checks the shape of a maze carved from `start` into a grid of walls.
fn assert_perfect(map: &Grid, start: Coords) {
    let (h, w) = (map.height(), map.width());
    let mut rooms = 0;
    let mut links = 0;
    for y in 0..h {
        for x in 0..w {
            let c = at(x, y);
            let room_x = x % 2 == start.x % 2;
            let room_y = y % 2 == start.y % 2;
            let cell = map.get(c);
            assert!(cell == Cell::Wall || cell == Cell::Open);
            if room_x && room_y {
                assert_eq!(cell, Cell::Open, "room {:?} is closed", c);
                rooms += 1;
            } else if room_x != room_y {
                if cell == Cell::Open {
                    links += 1;
                    if !room_x {
                        assert!(is_open(map, at(x - 1, y)) && is_open(map, at(x + 1, y)));
                    } else {
                        assert!(is_open(map, at(x, y - 1)) && is_open(map, at(x, y + 1)));
                    }
                }
            } else {
                assert_eq!(cell, Cell::Wall);
            }
            if cell == Cell::Open {
                assert!(oracle_distance(map, start, c).is_some(), "{:?} is cut off", c);
            }
        }
    }
    assert_eq!(rooms, links + 1);
}

#[test]
fn create_filled_is_all_walls() {
    let map = create_filled(3, 5);
    assert_eq!(map.height(), 3);
    assert_eq!(map.width(), 5);
    for y in 0..3 {
        for x in 0..5 {
            assert!(is_wall(&map, at(x, y)));
            assert!(!is_open(&map, at(x, y)));
            assert_eq!(map.get(at(x, y)), Cell::Wall);
        }
    }
}

#[test]
fn create_filled_without_rows_or_columns() {
    let none = create_filled(0, 7);
    assert_eq!(none.height(), 0);
    assert_eq!(none.width(), 0);
    assert!(!in_bounds(&none, at(0, 0)));
    let thin = create_filled(4, 0);
    assert_eq!(thin.height(), 4);
    assert_eq!(thin.width(), 0);
    assert!(!in_bounds(&thin, at(0, 0)));
    assert_eq!(try_offset(&thin, at(0, 0), 0, 1), None);
}

#[test]
fn in_bounds_checks_both_components() {
    let map = create_filled(3, 5);
    assert!(in_bounds(&map, at(0, 0)));
    assert!(in_bounds(&map, at(4, 2)));
    assert!(!in_bounds(&map, at(5, 2)));
    assert!(!in_bounds(&map, at(4, 3)));
    assert!(!in_bounds(&map, at(usize::MAX, 0)));
    assert!(!in_bounds(&map, at(0, usize::MAX)));
}

#[test]
fn shift_moves_within_the_limit() {
    assert_eq!(shift(3, 2, 6), Some(5));
    assert_eq!(shift(3, 3, 6), None);
    assert_eq!(shift(3, -3, 6), Some(0));
    assert_eq!(shift(3, -4, 6), None);
    assert_eq!(shift(0, 0, 0), None);
    assert_eq!(shift(usize::MAX, isize::MIN, usize::MAX), Some(usize::MAX / 2));
    assert_eq!(shift(usize::MAX - 1, 1, usize::MAX), None);
    assert_eq!(shift(0, isize::MAX, usize::MAX), Some(usize::MAX / 2));
}

#[test]
fn try_offset_applies_signed_offsets() {
    let map = create_filled(3, 5);
    assert_eq!(try_offset(&map, at(1, 1), 1, 0), Some(at(2, 1)));
    assert_eq!(try_offset(&map, at(1, 1), -1, -1), Some(at(0, 0)));
    assert_eq!(try_offset(&map, at(1, 1), 3, 1), Some(at(4, 2)));
    assert_eq!(try_offset(&map, at(1, 1), 0, 0), Some(at(1, 1)));
    assert_eq!(try_offset(&map, at(1, 1), -2, 0), None);
    assert_eq!(try_offset(&map, at(1, 1), 0, -2), None);
    assert_eq!(try_offset(&map, at(1, 1), 4, 0), None);
    assert_eq!(try_offset(&map, at(1, 1), 0, 2), None);
}

#[test]
fn try_offset_survives_extreme_offsets() {
    let map = create_filled(3, 5);
    let extremes = [isize::MIN, isize::MIN + 1, -1, 0, 1, isize::MAX - 1, isize::MAX];
    let points = [at(0, 0), at(4, 2), at(usize::MAX, usize::MAX), at(usize::MAX / 2, 1)];
    for &p in &points {
        for &dx in &extremes {
            for &dy in &extremes {
                if let Some(q) = try_offset(&map, p, dx, dy) {
                    assert!(q.x < 5 && q.y < 3);
                    assert_eq!(q.x as i128, p.x as i128 + dx as i128);
                    assert_eq!(q.y as i128, p.y as i128 + dy as i128);
                } else {
                    let nx = p.x as i128 + dx as i128;
                    let ny = p.y as i128 + dy as i128;
                    assert!(nx < 0 || nx >= 5 || ny < 0 || ny >= 3);
                }
            }
        }
    }
}

#[test]
fn try_offset_from_outside_back_inside() {
    let map = create_filled(3, 5);
    assert_eq!(try_offset(&map, at(7, 9), -3, -7), Some(at(4, 2)));
    assert_eq!(try_offset(&map, at(usize::MAX, 0), isize::MIN, 0), None);
}

#[test]
fn open_changes_one_cell() {
    let mut map = create_filled(3, 3);
    open(&mut map, at(1, 2));
    for y in 0..3 {
        for x in 0..3 {
            assert_eq!(is_open(&map, at(x, y)), x == 1 && y == 2);
            assert_eq!(is_wall(&map, at(x, y)), !(x == 1 && y == 2));
        }
    }
    assert_eq!(map.get(at(1, 2)), Cell::Open);
}

#[test]
fn markers_count_as_open() {
    let mut map = create_filled(1, 5);
    map.set(at(1, 0), Cell::Open);
    map.set(at(2, 0), Cell::Path);
    map.set(at(3, 0), Cell::Start);
    map.set(at(4, 0), Cell::Goal);
    assert!(is_wall(&map, at(0, 0)) && !is_open(&map, at(0, 0)));
    for x in 1..5 {
        assert!(is_open(&map, at(x, 0)));
        assert!(!is_wall(&map, at(x, 0)));
    }
}

#[test]
fn moves_from_lists_directions_in_order() {
    let map = create_filled(5, 5);
    let moves = moves_from(&map, at(2, 2));
    assert_eq!(
        moves,
        vec![
            (at(1, 2), at(0, 2)),
            (at(2, 3), at(2, 4)),
            (at(3, 2), at(4, 2)),
            (at(2, 1), at(2, 0)),
        ]
    );
    let corner = moves_from(&map, at(0, 0));
    assert_eq!(corner, vec![(at(0, 1), at(0, 2)), (at(1, 0), at(2, 0))]);
}

#[test]
fn moves_from_skips_opened_cells() {
    let mut map = create_filled(5, 5);
    open(&mut map, at(1, 2));
    open(&mut map, at(4, 2));
    let moves = moves_from(&map, at(2, 2));
    assert_eq!(moves, vec![(at(2, 3), at(2, 4)), (at(2, 1), at(2, 0))]);
    let small = create_filled(1, 1);
    assert!(moves_from(&small, at(0, 0)).is_empty());
    let narrow = create_filled(1, 2);
    assert!(moves_from(&narrow, at(0, 0)).is_empty());
}

#[test]
fn dig_opens_link_and_room_and_grows_the_stack() {
    let mut map = create_filled(1, 3);
    open(&mut map, at(0, 0));
    let mut stack = vec![at(9, 9)];
    dig(&mut map, &mut stack, at(0, 0), at(1, 0), at(2, 0));
    assert_eq!(stack, vec![at(9, 9), at(0, 0), at(2, 0)]);
    for x in 0..3 {
        assert_eq!(map.get(at(x, 0)), Cell::Open);
    }
}

#[test]
fn carve_single_cell() {
    let mut map = create_filled(1, 1);
    let mut rng = StdRng::seed_from_u64(1);
    carve_maze(&mut map, at(0, 0), &mut rng);
    assert_eq!(map.get(at(0, 0)), Cell::Open);
    assert_perfect(&map, at(0, 0));
}

#[test]
fn carve_corridor_is_forced() {
    let mut map = create_filled(1, 7);
    let mut rng = StdRng::seed_from_u64(3);
    carve_maze(&mut map, at(0, 0), &mut rng);
    for x in 0..7 {
        assert_eq!(map.get(at(x, 0)), Cell::Open);
    }
}

#[test]
fn carve_spans_every_room_from_even_start() {
    for seed in 0..20u64 {
        let mut map = create_filled(9, 13);
        let mut rng = StdRng::seed_from_u64(seed);
        carve_maze(&mut map, at(0, 0), &mut rng);
        assert_perfect(&map, at(0, 0));
        assert_eq!(count_open(&map), 2 * 5 * 7 - 1);
    }
}

#[test]
fn carve_spans_every_room_from_odd_start() {
    for seed in 0..20u64 {
        let mut map = create_filled(25, 79);
        let mut rng = StdRng::seed_from_u64(seed);
        let start = at(1, 1);
        carve_maze(&mut map, start, &mut rng);
        assert_perfect(&map, start);
        for x in 0..79 {
            assert!(is_wall(&map, at(x, 0)) && is_wall(&map, at(x, 24)));
        }
        for y in 0..25 {
            assert!(is_wall(&map, at(0, y)) && is_wall(&map, at(78, y)));
        }
        assert_eq!(count_open(&map), 2 * 12 * 39 - 1);
    }
}

#[test]
fn carve_from_the_middle_and_on_even_dimensions() {
    for seed in 0..10u64 {
        let mut map = create_filled(8, 6);
        let mut rng = StdRng::seed_from_u64(seed);
        let start = at(3, 4);
        carve_maze(&mut map, start, &mut rng);
        assert_perfect(&map, start);
        assert_eq!(count_open(&map), 2 * 3 * 4 - 1);
    }
}

#[test]
fn carve_keeps_what_was_open() {
    let mut map = grid_from(&["#####", "#    ", "#####"]);
    map.set(at(4, 1), Cell::Goal);
    let before: Vec<Cell> = (0..5).map(|x| map.get(at(x, 1))).collect();
    let mut rng = StdRng::seed_from_u64(5);
    carve_maze(&mut map, at(0, 0), &mut rng);
    assert_eq!(map.height(), 3);
    assert_eq!(map.width(), 5);
    assert_eq!(map.get(at(0, 0)), Cell::Open);
    for x in 1..5 {
        assert_eq!(map.get(at(x, 1)), before[x]);
    }
    for y in 0..3 {
        for x in 0..5 {
            let c = map.get(at(x, y));
            assert!(c == Cell::Wall || c == Cell::Open || (x == 4 && y == 1));
        }
    }
}

#[test]
fn carve_with_two_seeds_gives_two_mazes() {
    let mut first = create_filled(25, 79);
    let mut second = create_filled(25, 79);
    carve_maze(&mut first, at(1, 1), &mut StdRng::seed_from_u64(11));
    carve_maze(&mut second, at(1, 1), &mut StdRng::seed_from_u64(12));
    assert_perfect(&first, at(1, 1));
    assert_perfect(&second, at(1, 1));
    assert_ne!(render(&first), render(&second));
}

#[test]
fn carve_with_one_seed_gives_one_maze() {
    let mut first = create_filled(15, 15);
    let mut second = create_filled(15, 15);
    carve_maze(&mut first, at(1, 1), &mut StdRng::seed_from_u64(4));
    carve_maze(&mut second, at(1, 1), &mut StdRng::seed_from_u64(4));
    assert_eq!(render(&first), render(&second));
}

#[test]
fn solve_five_by_five_end_to_end() {
    for seed in 0..16u64 {
        let mut map = create_filled(5, 5);
        let start = at(1, 1);
        let goal = at(3, 3);
        carve_maze(&mut map, start, &mut StdRng::seed_from_u64(seed));
        open(&mut map, at(0, 1));
        open(&mut map, at(4, 3));
        let path = solve_bfs(&map, start, goal).expect("a carved maze has a solution");
        assert_valid_path(&map, &path, start, goal);
        assert_eq!(path.len() % 2, 1);
        assert!(path.len() == 5 || path.len() == 7);
        assert_eq!(Some(path.len() - 1), oracle_distance(&map, start, goal));
    }
}

#[test]
fn solve_straight_corridor() {
    let map = grid_from(&["#####", "#   #", "#####"]);
    let path = solve_bfs(&map, at(1, 1), at(3, 1)).unwrap();
    assert_eq!(path, vec![at(1, 1), at(2, 1), at(3, 1)]);
    let back = solve_bfs(&map, at(3, 1), at(1, 1)).unwrap();
    assert_eq!(back, vec![at(3, 1), at(2, 1), at(1, 1)]);
}

#[test]
fn solve_start_equals_goal() {
    let map = grid_from(&["#####", "#   #", "#####"]);
    assert_eq!(solve_bfs(&map, at(2, 1), at(2, 1)), Some(vec![at(2, 1)]));
}

#[test]
fn solve_takes_the_short_way_round_a_loop() {
    let map = grid_from(&[
        "       ",
        " ##### ",
        " #   # ",
        " # # # ",
        "   #   ",
        " ##### ",
        "       ",
    ]);
    let s = at(0, 4);
    let g = at(6, 4);
    let path = solve_bfs(&map, s, g).unwrap();
    assert_valid_path(&map, &path, s, g);
    assert_eq!(path.len(), 11);
    assert_eq!(Some(path.len() - 1), oracle_distance(&map, s, g));
}

#[test]
fn solve_matches_the_oracle_on_open_ground() {
    let map = grid_from(&["      ", "  ##  ", "   #  ", " #    ", "      "]);
    for sy in 0..5 {
        for sx in 0..6 {
            for gy in 0..5 {
                for gx in 0..6 {
                    let (s, g) = (at(sx, sy), at(gx, gy));
                    let found = solve_bfs(&map, s, g);
                    let expected = oracle_distance(&map, s, g);
                    assert_eq!(found.as_ref().map(|p| p.len() - 1), expected);
                    if let Some(path) = found {
                        assert_valid_path(&map, &path, s, g);
                    }
                }
            }
        }
    }
}

#[test]
fn solve_matches_the_oracle_on_carved_mazes() {
    for seed in 0..5u64 {
        let mut map = create_filled(11, 17);
        carve_maze(&mut map, at(1, 1), &mut StdRng::seed_from_u64(seed));
        let s = at(1, 1);
        for gy in 0..11 {
            for gx in 0..17 {
                let g = at(gx, gy);
                let found = solve_bfs(&map, s, g);
                assert_eq!(found.as_ref().map(|p| p.len() - 1), oracle_distance(&map, s, g));
                assert_eq!(found.is_some(), is_open(&map, g));
                if let Some(path) = found {
                    assert_valid_path(&map, &path, s, g);
                }
            }
        }
    }
}

#[test]
fn solve_rejects_walls_and_outside_cells() {
    let map = grid_from(&["#####", "#   #", "#####"]);
    assert_eq!(solve_bfs(&map, at(0, 0), at(3, 1)), None);
    assert_eq!(solve_bfs(&map, at(1, 1), at(4, 1)), None);
    assert_eq!(solve_bfs(&map, at(5, 1), at(1, 1)), None);
    assert_eq!(solve_bfs(&map, at(1, 1), at(1, 3)), None);
    assert_eq!(solve_bfs(&map, at(usize::MAX, usize::MAX), at(1, 1)), None);
    let empty = create_filled(0, 0);
    assert_eq!(solve_bfs(&empty, at(0, 0), at(0, 0)), None);
}

#[test]
fn solve_reports_unreachable_goal() {
    let map = grid_from(&["  #  ", "  #  "]);
    assert_eq!(solve_bfs(&map, at(0, 0), at(4, 1)), None);
    assert!(solve_bfs(&map, at(0, 0), at(1, 1)).is_some());
}

#[test]
fn solve_walks_over_markers() {
    let mut map = grid_from(&["     "]);
    map.set(at(0, 0), Cell::Start);
    map.set(at(1, 0), Cell::Path);
    map.set(at(4, 0), Cell::Goal);
    let path = solve_bfs(&map, at(0, 0), at(4, 0)).unwrap();
    assert_eq!(path.len(), 5);
}

#[test]
fn mark_path_lays_markers() {
    let mut map = grid_from(&["#####", "#   #", "#####"]);
    let path = solve_bfs(&map, at(1, 1), at(3, 1)).unwrap();
    mark_path(&mut map, &path, at(1, 1), at(3, 1));
    assert_eq!(map.get(at(1, 1)), Cell::Start);
    assert_eq!(map.get(at(2, 1)), Cell::Path);
    assert_eq!(map.get(at(3, 1)), Cell::Goal);
    assert_eq!(map.get(at(0, 1)), Cell::Wall);
    let text: String = render(&map).into_iter().collect();
    assert_eq!(text, "#####\n#S·G#\n#####\n");
}

#[test]
fn mark_path_leaves_walls_and_goal_wins() {
    let mut map = grid_from(&["# #"]);
    mark_path(&mut map, &vec![at(0, 0), at(1, 0)], at(2, 0), at(2, 0));
    assert_eq!(map.get(at(0, 0)), Cell::Wall);
    assert_eq!(map.get(at(1, 0)), Cell::Path);
    assert_eq!(map.get(at(2, 0)), Cell::Goal);
}

#[test]
fn glyph_of_each_cell() {
    assert_eq!(glyph(Cell::Wall), '#');
    assert_eq!(glyph(Cell::Open), ' ');
    assert_eq!(glyph(Cell::Path), '·');
    assert_eq!(glyph(Cell::Start), 'S');
    assert_eq!(glyph(Cell::Goal), 'G');
}

#[test]
fn render_empty_and_small_grids() {
    assert_eq!(render(&create_filled(0, 0)), Vec::<char>::new());
    assert_eq!(render(&create_filled(2, 0)), vec!['\n', '\n']);
    let text: String = render(&create_filled(2, 3)).into_iter().collect();
    assert_eq!(text, "###\n###\n");
}
