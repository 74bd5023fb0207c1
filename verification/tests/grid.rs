use rand::Rng;
use rand_pcg::Pcg64;
use rand_seeder::Seeder;
use seedgrid::cell::Cell;
use seedgrid::grid::{chars_of, gen_grid, get_coors, parent_cell};
use seedgrid::model::model;

fn letters(grid: &[Cell]) -> String {
    grid.iter().map(|parent| parent.letter.unwrap()).collect()
}

fn subdivided_quadrants(parent: &Cell) -> Vec<usize> {
    let kids = parent.cells.as_ref().unwrap();
    (0..kids.len()).filter(|&i| kids[i].cells.is_some()).collect()
}

#[test]
fn get_coors_counts_halves_of_the_base_length() {
    // x = 4 * 1 + 60 * 1 - 60 * 2 = -56, y = 4 * 1 + 60 * 1 - 60 * 7.5 = -386
    assert_eq!(get_coors(0, 0, 60, 4), (-112, -772));
    // x = 4 * 2 + 60 * 2 - 120 = 8, y = 4 * 4 + 60 * 4 - 450 = -194
    assert_eq!(get_coors(1, 3, 60, 4), (16, -388));
    assert_eq!(get_coors(0, 0, 0, 0), (0, 0));
    assert_eq!(get_coors(0, 0, 1, 0), (-2, -13));
    assert_eq!(get_coors(2, 5, -3, 10), (2 * 7 * 3 + 12, 2 * 7 * 6 + 45));
}

#[test]
fn get_coors_does_not_overflow() {
    let far = get_coors(usize::MAX, usize::MAX, i32::MAX, i32::MAX);
    let pitch = 2 * (i32::MAX as i128);
    let steps = usize::MAX as i128 + 1;
    assert_eq!(far, (2 * pitch * steps - 4 * (i32::MAX as i128), 2 * pitch * steps - 15 * (i32::MAX as i128)));
    let low = get_coors(usize::MAX, 0, i32::MIN, i32::MIN);
    let pitch = 2 * (i32::MIN as i128);
    assert_eq!(low, (2 * pitch * steps - 4 * (i32::MIN as i128), 2 * pitch - 15 * (i32::MIN as i128)));
}

#[test]
fn neighbours_lie_one_pitch_apart() {
    for (size, gutter) in [(60, 4), (1, 0), (7, 3), (100, -5)] {
        for col in 0..3 {
            for row in 0..5 {
                let here = get_coors(col, row, size, gutter);
                let right = get_coors(col + 1, row, size, gutter);
                let below = get_coors(col, row + 1, size, gutter);
                let pitch = 2 * (size + gutter) as i128;
                assert_eq!(right, (here.0 + pitch, here.1));
                assert_eq!(below, (here.0, here.1 + pitch));
            }
        }
    }
}

#[test]
fn parent_cell_is_a_lettered_leaf() {
    let parent = parent_cell(1, 3, 60, 4, 'x', true);
    assert_eq!(
        parent,
        Cell { unit: 2, size: 120, pos: (16, -388), cells: None, col: false, letter: Some('x'), fill: true }
    );
    assert!(parent_cell(0, 0, 60, 4, 'x', false).col);
    assert!(parent_cell(2, 0, 60, 4, 'x', false).col);
}

#[test]
fn chars_of_lists_the_characters() {
    assert_eq!(chars_of(""), Vec::<char>::new());
    assert_eq!(chars_of("ab"), vec!['a', 'b']);
    assert_eq!(chars_of("a\u{20ac}\u{1f600}z"), vec!['a', '\u{20ac}', '\u{1f600}', 'z']);
}

#[test]
fn the_seed_ab_gives_the_letters_a_and_b() {
    let grid = gen_grid(60, 4, "ab");
    assert_eq!(grid.len(), 2);
    assert_eq!(grid[0].letter, Some('a'));
    assert_eq!(grid[1].letter, Some('b'));
    assert_eq!(grid[0].pos, get_coors(0, 0, 60, 4));
    assert_eq!(grid[1].pos, get_coors(1, 0, 60, 4));
    assert!(grid[0].col);
    assert!(!grid[1].col);
}

#[test]
fn every_cell_stands_for_the_character_at_column_plus_row() {
    let grid = gen_grid(60, 4, "empowerglobant");
    assert_eq!(grid.len(), 26);
    assert_eq!(letters(&grid), "empowerglobanmpowerglobant");
    for col in 0..2 {
        for row in 0..13 {
            let parent = &grid[col * 13 + row];
            assert_eq!(parent.pos, get_coors(col, row, 60, 4));
            assert_eq!(parent.size, 120);
            assert_eq!(parent.unit, 2);
            assert_eq!(parent.col, col == 0);
        }
    }
}

#[test]
fn characters_beyond_one_byte_are_single_letters() {
    let grid = gen_grid(10, 1, "\u{e9}t\u{e9}");
    assert_eq!(letters(&grid), "\u{e9}tt\u{e9}");
}

#[test]
fn every_parent_has_four_quadrants_and_one_of_them_four_more() {
    for seed in ["ab", "empowerglobant", "abcdefghijklmnopqrstuvwxyz", "zz", "\u{20ac}\u{1f600}!"] {
        let grid = gen_grid(60, 4, seed);
        assert_eq!(grid.len(), 2 * (seed.chars().count() - 1));
        for parent in &grid {
            let kids = parent.cells.as_ref().unwrap();
            assert_eq!(kids.len(), 4);
            let subdivided = subdivided_quadrants(parent);
            assert_eq!(subdivided.len(), 1);
            let inner = kids[subdivided[0]].cells.as_ref().unwrap();
            assert_eq!(inner.len(), 4);
            assert!(inner.iter().all(|g| g.cells.is_none()));
        }
    }
}

#[test]
fn the_grid_is_the_parents_split_twice() {
    let grid = gen_grid(60, 4, "empowerglobant");
    for (k, parent) in grid.iter().enumerate() {
        let kids = parent.cells.as_ref().unwrap();
        let chosen = subdivided_quadrants(parent)[0];
        let inner_fill = kids[chosen].cells.as_ref().unwrap()[0].fill;
        let mut again = parent_cell(k / 13, k % 13, 60, 4, parent.letter.unwrap(), parent.fill);
        again.split_twice(kids[0].fill, chosen, inner_fill);
        assert_eq!(&again, parent);
    }
}

#[test]
fn quadrants_are_filled_as_gen_cells_fills_them() {
    let grid = gen_grid(60, 4, "empowerglobant");
    let mut blank = parent_cell(0, 0, 1, 1, 'x', false);
    blank.letter = None;
    let blank_fill = blank.gen_boxes().unwrap()[0].fill;
    for parent in &grid {
        let mut lettered = parent_cell(0, 0, 1, 1, parent.letter.unwrap(), false);
        let fill = lettered.gen_boxes().unwrap()[0].fill;
        let kids = parent.cells.as_ref().unwrap();
        assert!(kids.iter().all(|kid| kid.fill == fill));
        let chosen = subdivided_quadrants(parent)[0];
        assert!(kids[chosen].cells.as_ref().unwrap().iter().all(|g| g.fill == blank_fill));
    }
}

#[test]
fn two_runs_build_the_same_grid() {
    for seed in ["ab", "empowerglobant", "abcdefghijklmnopqrstuvwxyz"] {
        assert_eq!(gen_grid(60, 4, seed), gen_grid(60, 4, seed));
    }
}

#[test]
fn size_and_gutter_do_not_change_the_draws() {
    let wide = gen_grid(60, 4, "empowerglobant");
    let narrow = gen_grid(7, 0, "empowerglobant");
    for (a, b) in wide.iter().zip(narrow.iter()) {
        assert_eq!(a.fill, b.fill);
        assert_eq!(subdivided_quadrants(a), subdivided_quadrants(b));
        assert_eq!(a.letter, b.letter);
    }
}

#[test]
fn the_draws_depend_on_the_seed() {
    // With a generator that ignored its seed every seed would draw alike.
    let seeds = ["abcdefghijklmnopq", "bcdefghijklmnopqr", "the quick brown fox", "empowerglobant!!!", "seventeen letters"];
    let draws: Vec<Vec<(bool, Vec<usize>)>> = seeds
        .iter()
        .map(|seed| gen_grid(60, 4, seed).iter().take(32).map(|p| (p.fill, subdivided_quadrants(p))).collect())
        .collect();
    assert!(draws.iter().any(|d| d != &draws[0]));
}

#[test]
fn the_draws_vary_within_a_grid() {
    let grid = gen_grid(60, 4, "abcdefghijklmnopqrstuvwxyzabcdefghijklmnopqrstuvwxyz");
    assert!(grid.iter().any(|p| p.fill));
    assert!(grid.iter().any(|p| !p.fill));
    for quadrant in 0..4 {
        assert!(grid.iter().any(|p| subdivided_quadrants(p) == vec![quadrant]));
    }
}

#[test]
fn the_model_holds_the_grid_of_its_seed() {
    let m = model();
    assert_eq!(m.size, 60);
    assert_eq!(m.gutter, 4);
    assert_eq!(m.seed, "empowerglobant");
    assert_eq!(m.grid.len(), 26);
    assert_eq!(m.grid, gen_grid(60, 4, "empowerglobant"));
}

#[test]
fn the_draws_of_the_seed_ab() {
    let grid = gen_grid(60, 4, "ab");
    let seen: Vec<(bool, Vec<usize>, bool, bool)> = grid
        .iter()
        .map(|p| {
            let kids = p.cells.as_ref().unwrap();
            let chosen = subdivided_quadrants(p);
            let inner = kids[chosen[0]].cells.as_ref().unwrap()[0].fill;
            (p.fill, chosen, kids[0].fill, inner)
        })
        .collect();
    assert_eq!(
        seen,
        vec![(false, vec![2], false, true), (true, vec![3], false, true)]
    );
}

#[test]
fn the_grid_draws_what_a_seeded_pcg64_draws() {
    for seed in ["ab", "empowerglobant", "abcdefghijklmnopqrstuvwxyz"] {
        let mut rng: Pcg64 = Seeder::from(seed).make_rng();
        for parent in gen_grid(60, 4, seed) {
            let fill = rng.gen_bool(0.5);
            let chosen: i32 = rng.gen_range(0..4);
            assert_eq!(parent.fill, fill);
            assert_eq!(subdivided_quadrants(&parent), vec![chosen as usize]);
        }
    }
}

#[test]
fn quadrants_are_filled_by_a_pcg64_seeded_from_the_letter() {
    for letter in [None, Some('a'), Some('b'), Some('e'), Some('\u{20ac}')] {
        let mut rng: Pcg64 = Seeder::from(letter).make_rng();
        let fill = rng.gen_bool(0.5);
        let mut cell = parent_cell(0, 0, 60, 4, 'x', false);
        cell.letter = letter;
        assert_eq!(cell.gen_boxes().unwrap()[0].fill, fill);
    }
}
