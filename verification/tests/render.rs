use seedgrid::bits::letter_bits;
use seedgrid::cell::Cell;
use seedgrid::grid::{gen_grid, parent_cell};
use seedgrid::model::{model, Model};
use seedgrid::render::{cells_iter, draw_boxes, parent_requests, request, DrawRequest, Shape, WalkError};

fn leaf(col: bool, fill: bool) -> Cell {
    Cell { unit: 8, size: 224, pos: (-88, -2968), cells: None, col, letter: None, fill }
}

fn lits(requests: &[DrawRequest]) -> Vec<bool> {
    requests.iter().map(|r| r.lit).collect()
}

#[test]
fn request_copies_the_leaf() {
    assert_eq!(
        request(&leaf(true, false), true),
        DrawRequest { shape: Shape::Ellipse, unit: 8, pos: (-88, -2968), size: 224, filled: false, lit: true }
    );
    assert_eq!(
        request(&leaf(false, true), false),
        DrawRequest { shape: Shape::Rect, unit: 8, pos: (-88, -2968), size: 224, filled: true, lit: false }
    );
}

#[test]
fn a_leaf_takes_the_toggle_at_its_index() {
    let bits = vec![false, true, false];
    for curr in 0..3 {
        let mut out = Vec::new();
        assert_eq!(cells_iter(&leaf(true, true), &bits, curr, &mut out), Ok(()));
        assert_eq!(out, vec![request(&leaf(true, true), bits[curr])]);
    }
}

#[test]
fn a_leaf_beyond_the_toggles_fails_the_walk() {
    let bits = vec![false, true, false];
    for curr in [3, 4, usize::MAX] {
        let mut out = vec![request(&leaf(false, false), true)];
        assert_eq!(cells_iter(&leaf(true, true), &bits, curr, &mut out), Err(WalkError::IndexOutOfRange));
        assert_eq!(out, vec![request(&leaf(false, false), true)]);
    }
    let mut out = Vec::new();
    assert_eq!(cells_iter(&leaf(true, true), &vec![], 0, &mut out), Err(WalkError::IndexOutOfRange));
}

#[test]
fn quadrants_are_reached_with_the_next_four_indices() {
    let mut cell = leaf(false, true);
    cell.split(false);
    let bits = vec![true, true, false, true, false, false, true];
    let mut out = vec![request(&leaf(true, true), false)];
    assert_eq!(cells_iter(&cell, &bits, 1, &mut out), Ok(()));
    assert_eq!(out.len(), 5);
    assert_eq!(out[0], request(&leaf(true, true), false));
    let kids = cell.cells.as_ref().unwrap();
    for j in 0..4 {
        assert_eq!(out[1 + j], request(&kids[j], bits[2 + j]));
    }
}

#[test]
fn a_deeper_walk_adds_up_the_indices() {
    let mut cell = leaf(false, true);
    cell.split_twice(false, 1, true);
    let bits: Vec<bool> = (0..16).map(|i| i % 3 == 0).collect();
    let mut out = Vec::new();
    assert_eq!(cells_iter(&cell, &bits, 2, &mut out), Ok(()));
    // The quadrants are entered with 3, 4, 5, 6; those of quadrant 1 with 5, 6, 7, 8.
    let expected: Vec<bool> = [3usize, 5, 6, 7, 8, 5, 6].iter().map(|&i| bits[i]).collect();
    assert_eq!(lits(&out), expected);
    let mut short = Vec::new();
    assert_eq!(cells_iter(&cell, &bits[..8].to_vec(), 2, &mut short), Err(WalkError::IndexOutOfRange));
    assert!(short.is_empty());
}

#[test]
fn a_walk_that_fails_late_appends_nothing() {
    let mut cell = leaf(false, true);
    cell.split(false);
    let bits = vec![true, true, true, true];
    let mut out = vec![request(&leaf(true, true), false)];
    // Indices 1, 2, 3 are in range, index 4 is not.
    assert_eq!(cells_iter(&cell, &bits, 0, &mut out), Err(WalkError::IndexOutOfRange));
    assert_eq!(out, vec![request(&leaf(true, true), false)]);
}

#[test]
fn the_walk_does_not_overflow() {
    let mut cell = leaf(false, true);
    cell.split_twice(false, 3, true);
    let mut out = Vec::new();
    assert_eq!(cells_iter(&cell, &vec![true; 8], usize::MAX, &mut out), Err(WalkError::IndexOutOfRange));
    assert_eq!(cells_iter(&cell, &vec![true; 8], usize::MAX - 2, &mut out), Err(WalkError::IndexOutOfRange));
    assert!(out.is_empty());
}

#[test]
fn a_parent_is_walked_from_index_zero() {
    let bits = letter_bits('a');
    for chosen in 0..4 {
        let mut parent = parent_cell(0, 0, 60, 4, 'a', true);
        parent.split_twice(false, chosen, true);
        let mut out = Vec::new();
        assert_eq!(parent_requests(&parent, &bits, &mut out), Ok(()));
        let mut indices = Vec::new();
        let mut cells = Vec::new();
        let kids = parent.cells.as_ref().unwrap();
        for i in 0..4 {
            match &kids[i].cells {
                None => {
                    indices.push(i);
                    cells.push(&kids[i]);
                }
                Some(inner) => {
                    for j in 0..4 {
                        indices.push(i + j + 1);
                        cells.push(&inner[j]);
                    }
                }
            }
        }
        assert_eq!(out.len(), 7);
        for n in 0..7 {
            assert_eq!(out[n], request(cells[n], bits[indices[n]]));
        }
    }
}

#[test]
fn the_toggles_of_the_letter_a_on_a_parent() {
    // 'a' is 0 1 1 0 0 0 0 1. Quadrant 1 is subdivided: the leaves are reached with
    // 0, then 2 3 4 5, then 2, then 3.
    let mut parent = parent_cell(0, 0, 60, 4, 'a', true);
    parent.split_twice(false, 1, true);
    let mut out = Vec::new();
    assert_eq!(parent_requests(&parent, &letter_bits('a'), &mut out), Ok(()));
    assert_eq!(lits(&out), vec![false, true, false, false, false, true, false]);
    assert!(out.iter().all(|r| r.shape == Shape::Ellipse));
    assert_eq!(
        out.iter().map(|r| r.filled).collect::<Vec<bool>>(),
        vec![false, true, true, true, true, false, false]
    );
    // With the last quadrant subdivided the walk ends on index 3 + 3 + 1 = 7.
    let mut parent = parent_cell(1, 0, 60, 4, 'a', true);
    parent.split_twice(false, 3, true);
    let mut out = Vec::new();
    assert_eq!(parent_requests(&parent, &letter_bits('a'), &mut out), Ok(()));
    assert_eq!(lits(&out), vec![false, true, true, false, false, false, true]);
    assert!(out.iter().all(|r| r.shape == Shape::Rect));
}

#[test]
fn a_parent_without_quadrants_has_no_requests() {
    let parent = parent_cell(0, 0, 60, 4, 'a', true);
    let mut out = Vec::new();
    assert_eq!(parent_requests(&parent, &vec![], &mut out), Ok(()));
    assert!(out.is_empty());
}

#[test]
fn four_toggles_are_too_few_for_a_finished_parent() {
    for chosen in 0..4 {
        let mut parent = parent_cell(0, 0, 60, 4, '\n', true);
        parent.split_twice(false, chosen, true);
        let mut out = Vec::new();
        assert_eq!(parent_requests(&parent, &letter_bits('\n'), &mut out), Err(WalkError::IndexOutOfRange));
        assert!(out.is_empty());
    }
}

#[test]
fn eight_toggles_are_enough_for_a_finished_parent() {
    for chosen in 0..4 {
        let mut parent = parent_cell(0, 0, 60, 4, 'a', true);
        parent.split_twice(false, chosen, true);
        let mut out = Vec::new();
        assert_eq!(parent_requests(&parent, &vec![true; 8], &mut out), Ok(()));
        assert_eq!(parent_requests(&parent, &vec![true; 7], &mut out).is_ok(), chosen != 3);
    }
}

#[test]
fn draw_boxes_walks_every_parent_with_its_own_letter() {
    let m = model();
    let requests = draw_boxes(&m).unwrap();
    assert_eq!(requests.len(), 26 * 7);
    let mut expected = Vec::new();
    for parent in &m.grid {
        let bits = letter_bits(parent.letter.unwrap());
        parent_requests(parent, &bits, &mut expected).unwrap();
    }
    assert_eq!(requests, expected);
    for (k, r) in requests.iter().enumerate() {
        let shape = if k < 13 * 7 { Shape::Ellipse } else { Shape::Rect };
        assert_eq!(r.shape, shape);
    }
}

#[test]
fn draw_boxes_is_the_same_on_every_run() {
    assert_eq!(draw_boxes(&model()), draw_boxes(&model()));
}

#[test]
fn draw_boxes_fails_on_a_letter_of_one_hexadecimal_digit() {
    let seed = "a\tb".to_string();
    let grid = gen_grid(60, 4, &seed);
    let m = Model { size: 60, gutter: 4, grid, seed };
    assert_eq!(draw_boxes(&m), Err(WalkError::IndexOutOfRange));
}

#[test]
fn draw_boxes_of_an_empty_grid_is_empty() {
    let m = Model { size: 60, gutter: 4, grid: Vec::new(), seed: String::new() };
    assert_eq!(draw_boxes(&m), Ok(Vec::new()));
}
