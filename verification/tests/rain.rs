use grid_sims::rain::{generate_line, step_column, update_grid, GLYPHS, GRID_COLS, GRID_ROWS};
use rand::rngs::StdRng;
use rand::SeedableRng;

type Screen = [[char; GRID_COLS]; GRID_ROWS];

#[test]
fn screen_dimensions_and_glyphs() {
    assert_eq!(GRID_ROWS, 40);
    assert_eq!(GRID_COLS, 140);
    assert_eq!(GLYPHS.len(), 46);
    assert_eq!(GLYPHS[0], 'ｱ');
    assert_eq!(GLYPHS[45], 'ﾝ');
    assert!(!GLYPHS.contains(&' '));
}

#[test]
fn update_scrolls_down_by_one_row() {
    let mut g: Box<Screen> = Box::new([[' '; GRID_COLS]; GRID_ROWS]);
    for y in 0..GRID_ROWS {
        for x in 0..GRID_COLS {
            g[y][x] = char::from_u32(0x100 + (y * 7 + x % 5) as u32).unwrap();
        }
    }
    let before = g.clone();
    let mut r = [' '; GRID_COLS];
    for x in 0..GRID_COLS {
        r[x] = if x % 2 == 0 { 'a' } else { 'b' };
    }
    update_grid(&mut g, &r);
    assert_eq!(g[0], r);
    for y in 1..GRID_ROWS {
        assert_eq!(g[y], before[y - 1]);
    }
}

#[test]
fn update_twice_pushes_rows_two_down() {
    let mut g: Box<Screen> = Box::new([[' '; GRID_COLS]; GRID_ROWS]);
    let first = ['1'; GRID_COLS];
    let second = ['2'; GRID_COLS];
    update_grid(&mut g, &first);
    update_grid(&mut g, &second);
    assert_eq!(g[0], second);
    assert_eq!(g[1], first);
    assert_eq!(g[2], [' '; GRID_COLS]);
}

#[test]
fn step_column_in_each_case() {
    assert_eq!(step_column(true, false, 'ｱ'), ('ｱ', true));
    assert_eq!(step_column(true, true, 'ｱ'), ('ｱ', false));
    assert_eq!(step_column(false, true, 'ｲ'), ('ｲ', true));
    assert_eq!(step_column(false, false, 'ｲ'), (' ', false));
}

#[test]
fn generated_lines_show_glyphs_where_lit() {
    let mut rng = StdRng::seed_from_u64(9);
    let mut ac = [false; GRID_COLS];
    for i in 0..GRID_COLS {
        ac[i] = i % 3 == 0;
    }
    let mut lit_rows = 0;
    let mut started = 0;
    let mut stopped = 0;
    for _ in 0..200 {
        let before = ac;
        let line = generate_line(&mut ac, &mut rng);
        for i in 0..GRID_COLS {
            if before[i] || ac[i] {
                assert!(GLYPHS.contains(&line[i]));
            } else {
                assert_eq!(line[i], ' ');
            }
            if !before[i] && ac[i] {
                started += 1;
            }
            if before[i] && !ac[i] {
                stopped += 1;
            }
        }
        if ac.iter().any(|&a| a) {
            lit_rows += 1;
        }
    }
    assert!(lit_rows > 0);
    assert!(started > 0);
    assert!(stopped > 0);
}

#[test]
fn generated_lines_use_many_glyphs() {
    let mut rng = StdRng::seed_from_u64(2);
    let mut ac = [true; GRID_COLS];
    let line = generate_line(&mut ac, &mut rng);
    let mut seen = std::collections::HashSet::new();
    for c in line {
        assert!(GLYPHS.contains(&c));
        seen.insert(c);
    }
    assert!(seen.len() > 10);
}

#[test]
fn generated_lines_repeat_with_the_seed() {
    let mut first = [false; GRID_COLS];
    let mut second = [false; GRID_COLS];
    let mut a = StdRng::seed_from_u64(77);
    let mut b = StdRng::seed_from_u64(77);
    for _ in 0..20 {
        assert_eq!(generate_line(&mut first, &mut a), generate_line(&mut second, &mut b));
        assert_eq!(first, second);
    }
}

#[test]
fn render_screen_as_text() {
    let mut g: Box<Screen> = Box::new([['.'; GRID_COLS]; GRID_ROWS]);
    g[0][0] = 'a';
    g[39][139] = 'z';
    let text = grid_sims::rain::render(&g);
    assert_eq!(text.len(), GRID_ROWS * GRID_COLS + GRID_ROWS - 1);
    assert_eq!(text[0], 'a');
    assert_eq!(text[GRID_COLS], '\n');
    assert_eq!(text[GRID_COLS + 1], '.');
    assert_eq!(text[text.len() - 1], 'z');
    assert_eq!(text.iter().filter(|&&c| c == '\n').count(), GRID_ROWS - 1);
}
