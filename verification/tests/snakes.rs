use grid_sims::coords::Coords;
use grid_sims::snakes::{free_moves, generate_grid, Snake};

fn at(x: usize, y: usize) -> Coords {
    Coords { x, y }
}

fn canvas(rows: &[&str]) -> Vec<Vec<char>> {
    rows.iter().map(|r| r.chars().collect()).collect()
}

#[test]
fn new_snake_has_one_cell_on_the_canvas() {
    for _ in 0..200 {
        let s = Snake::new(80, 30, '#');
        assert_eq!(s.sym, '#');
        assert_eq!(s.body.len(), 1);
        assert!(s.body[0].x < 80);
        assert!(s.body[0].y < 30);
    }
}

#[test]
fn new_snake_on_a_canvas_of_one_cell() {
    let s = Snake::new(1, 1, '@');
    assert_eq!(s.body, vec![at(0, 0)]);
}

#[test]
fn new_snakes_land_in_different_places() {
    let mut places = std::collections::HashSet::new();
    for _ in 0..64 {
        let s = Snake::new(1000, 1000, '$');
        places.insert((s.body[0].x, s.body[0].y));
    }
    assert!(places.len() > 1);
}

#[test]
fn free_moves_in_looking_order() {
    let grid = canvas(&["   ", "   ", "   "]);
    assert_eq!(free_moves(&grid, at(1, 1)), vec![at(1, 0), at(1, 2), at(0, 1), at(2, 1)]);
    assert_eq!(free_moves(&grid, at(0, 0)), vec![at(0, 1), at(1, 0)]);
    assert_eq!(free_moves(&grid, at(2, 2)), vec![at(2, 1), at(1, 2)]);
}

#[test]
fn free_moves_skip_taken_cells() {
    let grid = canvas(&[" # ", "#  ", " @ "]);
    assert_eq!(free_moves(&grid, at(1, 1)), vec![at(2, 1)]);
    let empty: Vec<Vec<char>> = Vec::new();
    assert!(free_moves(&empty, at(0, 0)).is_empty());
    assert!(free_moves(&grid, at(7, 7)).is_empty());
    assert_eq!(free_moves(&grid, at(3, 1)), vec![at(2, 1)]);
}

#[test]
fn step_takes_the_only_free_cell() {
    let grid = canvas(&["###", "#  ", "###"]);
    let mut s = Snake { sym: '%', body: vec![at(1, 1), at(0, 1)] };
    s.step(&grid);
    assert_eq!(s.body, vec![at(2, 1), at(1, 1), at(0, 1)]);
    assert_eq!(s.sym, '%');
}

#[test]
fn step_without_free_cell_clears_the_body() {
    let grid = canvas(&["###", "# #", "###"]);
    let mut s = Snake { sym: '%', body: vec![at(1, 1), at(0, 1)] };
    s.step(&grid);
    assert!(s.body.is_empty());
    s.step(&grid);
    assert!(s.body.is_empty());
    assert_eq!(s.sym, '%');
}

#[test]
fn step_picks_one_of_the_free_cells() {
    let grid = canvas(&["   ", "   ", "   "]);
    let mut heads = std::collections::HashSet::new();
    for _ in 0..200 {
        let mut s = Snake { sym: '&', body: vec![at(1, 1)] };
        s.step(&grid);
        assert_eq!(s.body.len(), 2);
        assert_eq!(s.body[1], at(1, 1));
        let h = s.body[0];
        assert!([at(1, 0), at(1, 2), at(0, 1), at(2, 1)].contains(&h));
        heads.insert((h.x, h.y));
    }
    assert!(heads.len() > 1);
}

#[test]
fn move_to_puts_the_new_head_in_front() {
    let mut s = Snake { sym: '#', body: vec![at(1, 1)] };
    s.move_to(&vec![at(5, 5), at(1, 2)], 1);
    assert_eq!(s.body, vec![at(1, 2), at(1, 1)]);
    let mut bare = Snake { sym: '#', body: Vec::new() };
    bare.move_to(&vec![at(5, 5)], 0);
    assert_eq!(bare.body, vec![at(5, 5)]);
}

#[test]
fn generate_grid_draws_later_snakes_on_top() {
    let snakes = vec![
        Snake { sym: '#', body: vec![at(0, 0), at(1, 0), at(2, 0)] },
        Snake { sym: '@', body: vec![at(1, 0), at(1, 1), at(9, 9)] },
        Snake { sym: '$', body: Vec::new() },
    ];
    let grid = generate_grid(3, 2, &snakes);
    assert_eq!(grid, canvas(&["#@#", " @ "]));
}

#[test]
fn generate_grid_without_snakes_is_blank() {
    let grid = generate_grid(4, 2, &Vec::new());
    assert_eq!(grid, canvas(&["    ", "    "]));
    assert_eq!(generate_grid(0, 0, &Vec::new()), Vec::<Vec<char>>::new());
    assert_eq!(generate_grid(0, 2, &Vec::new()), vec![Vec::<char>::new(), Vec::new()]);
}

#[test]
fn snakes_walk_until_they_are_stuck() {
    let mut snakes: Vec<Snake> = (0..5).map(|_| Snake::new(6, 4, '#')).collect();
    let mut grid = generate_grid(6, 4, &Vec::new());
    for _ in 0..200 {
        for s in snakes.iter_mut() {
            let before = s.body.len();
            s.step(&grid);
            assert!(s.body.len() == before + 1 || s.body.is_empty());
        }
        snakes.retain(|s| !s.body.is_empty());
        grid = generate_grid(6, 4, &snakes);
        let drawn = grid.iter().flatten().filter(|&&c| c == '#').count();
        assert!(drawn <= 24);
        if snakes.is_empty() {
            break;
        }
    }
    assert!(snakes.is_empty());
}
