use grid_sims::coords::Coords;
use grid_sims::life::{
    draw_pattern, get_alive_neighbour, get_cell, get_unbound_coords, place_beacon, place_beehive,
    place_blinker, place_block, place_glider, place_lwss, place_pentadecathlon, place_pulsar,
    place_toad, set_cell, update_grid, Cell, Status, GRID_COLS, GRID_ROWS,
};

type Board = [[Status; GRID_COLS]; GRID_ROWS];

fn dead_board() -> Box<Board> {
    Box::new([[Status::DEAD; GRID_COLS]; GRID_ROWS])
}

fn alive_cells(grid: &Board) -> Vec<(usize, usize)> {
    let mut cells = Vec::new();
    for y in 0..GRID_ROWS {
        for x in 0..GRID_COLS {
            if grid[y][x] == Status::ALIVE {
                cells.push((x, y));
            }
        }
    }
    cells
}

fn sorted(mut cells: Vec<(usize, usize)>) -> Vec<(usize, usize)> {
    cells.sort_by_key(|&(x, y)| (y, x));
    cells
}

#[test]
fn board_dimensions() {
    assert_eq!(GRID_ROWS, 40);
    assert_eq!(GRID_COLS, 100);
}

#[test]
fn unbound_coords_keep_cells_on_the_board() {
    let c = get_unbound_coords(5, 7);
    assert_eq!((c.x, c.y), (5, 7));
    let c = get_unbound_coords(99, 39);
    assert_eq!((c.x, c.y), (99, 39));
}

#[test]
fn unbound_coords_wrap_around() {
    let c = get_unbound_coords(100, 40);
    assert_eq!((c.x, c.y), (0, 0));
    let c = get_unbound_coords(-1, -1);
    assert_eq!((c.x, c.y), (99, 39));
    let c = get_unbound_coords(-100, -40);
    assert_eq!((c.x, c.y), (0, 0));
    let c = get_unbound_coords(-101, 81);
    assert_eq!((c.x, c.y), (99, 1));
    let c = get_unbound_coords(250, -85);
    assert_eq!((c.x, c.y), (50, 35));
}

#[test]
fn unbound_coords_at_the_ends_of_the_range() {
    let c = get_unbound_coords(isize::MAX, isize::MIN);
    assert_eq!(c.x as i128, (isize::MAX as i128).rem_euclid(100));
    assert_eq!(c.y as i128, (isize::MIN as i128).rem_euclid(40));
    let c = get_unbound_coords(isize::MIN, isize::MAX);
    assert_eq!(c.x as i128, (isize::MIN as i128).rem_euclid(100));
    assert_eq!(c.y as i128, (isize::MAX as i128).rem_euclid(40));
}

#[test]
fn set_and_get_one_cell() {
    let mut grid = dead_board();
    set_cell(&mut grid, Cell { coords: Coords { x: 3, y: 2 }, status: Status::ALIVE });
    assert_eq!(get_cell(&grid, Coords { x: 3, y: 2 }), Status::ALIVE);
    assert_eq!(get_cell(&grid, Coords { x: 2, y: 3 }), Status::DEAD);
    assert_eq!(alive_cells(&grid), vec![(3, 2)]);
    set_cell(&mut grid, Cell { coords: Coords { x: 3, y: 2 }, status: Status::DEAD });
    assert!(alive_cells(&grid).is_empty());
}

#[test]
fn neighbours_are_counted_without_the_centre() {
    let mut grid = dead_board();
    for y in 4..7 {
        for x in 4..7 {
            grid[y][x] = Status::ALIVE;
        }
    }
    assert_eq!(get_alive_neighbour(&grid, Coords { x: 5, y: 5 }), 8);
    assert_eq!(get_alive_neighbour(&grid, Coords { x: 4, y: 4 }), 3);
    assert_eq!(get_alive_neighbour(&grid, Coords { x: 5, y: 4 }), 5);
    assert_eq!(get_alive_neighbour(&grid, Coords { x: 3, y: 3 }), 1);
    assert_eq!(get_alive_neighbour(&grid, Coords { x: 7, y: 5 }), 3);
    assert_eq!(get_alive_neighbour(&grid, Coords { x: 20, y: 20 }), 0);
}

#[test]
fn neighbours_wrap_around_the_edges() {
    let mut grid = dead_board();
    grid[GRID_ROWS - 1][GRID_COLS - 1] = Status::ALIVE;
    grid[0][GRID_COLS - 1] = Status::ALIVE;
    grid[GRID_ROWS - 1][0] = Status::ALIVE;
    assert_eq!(get_alive_neighbour(&grid, Coords { x: 0, y: 0 }), 3);
    assert_eq!(get_alive_neighbour(&grid, Coords { x: GRID_COLS - 1, y: GRID_ROWS - 1 }), 2);
    assert_eq!(get_alive_neighbour(&grid, Coords { x: 1, y: 0 }), 1);
}

#[test]
fn neighbours_of_a_cell_off_the_board() {
    let mut grid = dead_board();
    grid[0][1] = Status::ALIVE;
    grid[1][0] = Status::ALIVE;
    grid[0][0] = Status::ALIVE;
    let on = get_alive_neighbour(&grid, Coords { x: 0, y: 0 });
    let off = get_alive_neighbour(&grid, Coords { x: GRID_COLS, y: 2 * GRID_ROWS });
    assert_eq!(on, 2);
    assert_eq!(off, 2);
    assert_eq!(get_alive_neighbour(&grid, Coords { x: 3 * GRID_COLS + 1, y: GRID_ROWS + 1 }), 3);
}

#[test]
fn blinker_oscillates() {
    let mut a = dead_board();
    let mut b = dead_board();
    place_blinker(&mut a, 10, 10);
    assert_eq!(alive_cells(&a), vec![(10, 10), (11, 10), (12, 10)]);
    update_grid(&a, &mut b);
    assert_eq!(alive_cells(&b), vec![(11, 9), (11, 10), (11, 11)]);
    update_grid(&b, &mut a);
    assert_eq!(alive_cells(&a), vec![(10, 10), (11, 10), (12, 10)]);
}

#[test]
fn block_is_still() {
    let mut a = dead_board();
    let mut b = dead_board();
    place_block(&mut a, 3, 3);
    assert_eq!(alive_cells(&a), vec![(3, 3), (4, 3), (3, 4), (4, 4)]);
    update_grid(&a, &mut b);
    assert_eq!(alive_cells(&b), alive_cells(&a));
}

#[test]
fn update_overwrites_the_target() {
    let a = dead_board();
    let mut b = Box::new([[Status::ALIVE; GRID_COLS]; GRID_ROWS]);
    update_grid(&a, &mut b);
    assert!(alive_cells(&b).is_empty());
}

#[test]
fn lonely_and_crowded_cells_die_and_three_give_birth() {
    let mut a = dead_board();
    let mut b = dead_board();
    a[5][5] = Status::ALIVE;
    update_grid(&a, &mut b);
    assert!(alive_cells(&b).is_empty());

    let mut a = dead_board();
    for &(x, y) in &[(5usize, 5usize), (4, 4), (6, 4), (4, 6), (6, 6)] {
        a[y][x] = Status::ALIVE;
    }
    update_grid(&a, &mut b);
    assert_eq!(b[5][5], Status::DEAD);
    assert_eq!(b[4][5], Status::ALIVE);
    assert_eq!(b[5][4], Status::ALIVE);
}

#[test]
fn glider_moves_one_cell_diagonally_in_four_generations() {
    let mut a = dead_board();
    let mut b = dead_board();
    place_glider(&mut a, 10, 8);
    let start = alive_cells(&a);
    assert_eq!(start, vec![(11, 8), (12, 9), (10, 10), (11, 10), (12, 10)]);
    update_grid(&a, &mut b);
    update_grid(&b, &mut a);
    update_grid(&a, &mut b);
    update_grid(&b, &mut a);
    let moved: Vec<(usize, usize)> = start.iter().map(|&(x, y)| (x + 1, y + 1)).collect();
    assert_eq!(alive_cells(&a), moved);
}

#[test]
fn glider_crosses_the_edge() {
    let mut a = dead_board();
    let mut b = dead_board();
    place_glider(&mut a, 97, 37);
    assert_eq!(alive_cells(&a).len(), 5);
    for _ in 0..8 {
        update_grid(&a, &mut b);
        update_grid(&b, &mut a);
    }
    let mut expected = dead_board();
    place_glider(&mut expected, 101, 41);
    assert_eq!(alive_cells(&a), alive_cells(&expected));
}

#[test]
fn draw_pattern_wraps_and_keeps_the_rest() {
    let mut grid = dead_board();
    grid[20][20] = Status::ALIVE;
    draw_pattern(&mut grid, -1, -1, &[(0, 0), (1, 1), (2, 0), (101, 41)]);
    assert_eq!(sorted(alive_cells(&grid)), vec![(0, 0), (20, 20), (1, 39), (99, 39)]);
    draw_pattern(&mut grid, 5, 5, &[]);
    assert_eq!(alive_cells(&grid).len(), 4);
}

#[test]
fn shapes_have_their_cells() {
    let mut grid = dead_board();
    place_toad(&mut grid, 30, 12);
    assert_eq!(
        alive_cells(&grid),
        vec![(31, 12), (32, 12), (33, 12), (30, 13), (31, 13), (32, 13)]
    );
    let mut grid = dead_board();
    place_beacon(&mut grid, 80, 25);
    assert_eq!(
        alive_cells(&grid),
        vec![(80, 25), (81, 25), (80, 26), (81, 26), (82, 27), (83, 27), (82, 28), (83, 28)]
    );
    let mut grid = dead_board();
    place_beehive(&mut grid, 12, 15);
    assert_eq!(
        alive_cells(&grid),
        vec![(13, 15), (14, 15), (12, 16), (15, 16), (13, 17), (14, 17)]
    );
    let mut grid = dead_board();
    place_lwss(&mut grid, 6, 30);
    assert_eq!(
        alive_cells(&grid),
        vec![(6, 30), (9, 30), (10, 31), (6, 32), (10, 32), (7, 33), (8, 33), (9, 33), (10, 33)]
    );
    let mut grid = dead_board();
    place_pentadecathlon(&mut grid, 20, 35);
    assert_eq!(
        alive_cells(&grid),
        vec![
            (24, 35),
            (20, 36),
            (21, 36),
            (22, 36),
            (23, 36),
            (25, 36),
            (26, 36),
            (27, 36),
            (28, 36),
            (29, 36),
            (30, 36),
            (24, 37)
        ]
    );
}

#[test]
fn pulsar_has_period_three() {
    let mut a = dead_board();
    let mut b = dead_board();
    place_pulsar(&mut a, 60, 10);
    let start = alive_cells(&a);
    assert_eq!(start.len(), 48);
    assert!(start.contains(&(62, 10)) && start.contains(&(72, 20)) && start.contains(&(60, 12)));
    update_grid(&a, &mut b);
    assert_ne!(alive_cells(&b), start);
    update_grid(&b, &mut a);
    update_grid(&a, &mut b);
    assert_eq!(alive_cells(&b), start);
}

#[test]
fn toad_and_beacon_have_period_two() {
    let mut a = dead_board();
    let mut b = dead_board();
    place_toad(&mut a, 30, 12);
    place_beacon(&mut a, 80, 25);
    let start = alive_cells(&a);
    update_grid(&a, &mut b);
    assert_ne!(alive_cells(&b), start);
    update_grid(&b, &mut a);
    assert_eq!(alive_cells(&a), start);
}

#[test]
fn beehive_is_still() {
    let mut a = dead_board();
    let mut b = dead_board();
    place_beehive(&mut a, 12, 15);
    update_grid(&a, &mut b);
    assert_eq!(alive_cells(&b), alive_cells(&a));
}

#[test]
fn render_board_as_text() {
    let mut grid = dead_board();
    grid[0][1] = Status::ALIVE;
    grid[39][99] = Status::ALIVE;
    let text = grid_sims::life::render(&grid);
    assert_eq!(text.len(), GRID_ROWS * (GRID_COLS + 1));
    assert_eq!(text[0], '⋅');
    assert_eq!(text[1], '#');
    assert_eq!(text[GRID_COLS], '\n');
    assert_eq!(text[39 * 101 + 99], '#');
    assert_eq!(text[text.len() - 1], '\n');
    assert_eq!(text.iter().filter(|&&c| c == '#').count(), 2);
    assert_eq!(text.iter().filter(|&&c| c == '\n').count(), GRID_ROWS);
}
