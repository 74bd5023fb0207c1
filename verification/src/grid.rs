//! The grid generator: from a seed string to the finished top-level cells.

use vstd::prelude::*;
use vstd::arithmetic::div_mod::lemma_fundamental_div_mod_converse;
use rand_pcg::Pcg64;
use crate::cell::{
    lemma_subdivided_twice_shape, letter_fill, parent_shape, subdivided_twice, views, well_formed,
    Cell, CellView,
};
use crate::rng::{
    bool_draw, flip, pick_quadrant, quadrant_draw, rng_from_letter, rng_from_text, rng_state,
    state_from_text,
};

verus! {

/// The number of columns of every grid.
pub const COLS: usize = 2;

/// Top-level cells count halves of the base length.
pub const PARENT_UNIT: i128 = 2;

/// The centre of the top-level cell in column `col` and row `row`, in halves of
/// the base length: cells follow each other at a pitch of `size + gutter`, and
/// the grid is shifted left by twice and down by seven and a half times the cell
/// size.
pub open spec fn coors(col: int, row: int, size: int, gutter: int) -> (int, int) {
    (
        2 * ((gutter + size) * (col + 1)) - 4 * size,
        2 * ((gutter + size) * (row + 1)) - 15 * size,
    )
}

/// Which character of a seed of `len` characters the cell in column `col` and
/// row `row` stands for.
pub open spec fn letter_index(col: int, row: int, len: int) -> int {
    (col + row) % len
}

/// A top-level cell before its subdivision.
pub open spec fn bare_parent(
    col: int,
    row: int,
    size: int,
    gutter: int,
    letter: char,
    fill: bool,
) -> CellView {
    CellView {
        unit: PARENT_UNIT as int,
        size: 2 * size,
        pos: coors(col, row, size, gutter),
        cells: None,
        col: col % 2 == 0,
        letter: Some(letter),
        fill,
    }
}

/// The state of the generator seeded from the whole seed after `k` top-level
/// cells were built. Each of them takes one coin, for its own `fill`, and then
/// one quadrant number.
pub open spec fn shared_state(seed: Seq<char>, k: nat) -> nat
    decreases k,
{
    if k == 0 {
        state_from_text(seed)
    } else {
        quadrant_draw(bool_draw(shared_state(seed, (k - 1) as nat)).1).1
    }
}

/// Top-level cell number `k` of the grid, counted column by column.
pub open spec fn parent_model(size: int, gutter: int, seed: Seq<char>, k: int) -> CellView {
    let rows = seed.len() - 1;
    let col = k / rows;
    let row = k % rows;
    let letter = seed[letter_index(col, row, seed.len() as int)];
    let coin = bool_draw(shared_state(seed, k as nat));
    let chosen = quadrant_draw(coin.1).0;
    subdivided_twice(
        bare_parent(col, row, size, gutter, letter, coin.0),
        letter_fill(Some(letter)),
        chosen as int,
        letter_fill(None),
    )
}

/// The grid of a seed: two columns of one row less than the seed has characters,
/// column by column.
pub open spec fn grid_model(size: int, gutter: int, seed: Seq<char>) -> Seq<CellView> {
    Seq::new((COLS * (seed.len() - 1)) as nat, |k: int| parent_model(size, gutter, seed, k))
}

/// Neighbours in a row of the grid lie exactly `size + gutter` base lengths
/// apart, at the same height.
pub proof fn lemma_columns_tile(col: int, row: int, size: int, gutter: int)
    ensures
        coors(col + 1, row, size, gutter).0 - coors(col, row, size, gutter).0 == PARENT_UNIT * (
        size + gutter),
        coors(col + 1, row, size, gutter).1 == coors(col, row, size, gutter).1,
{
    assert((gutter + size) * (col + 2) == (gutter + size) * (col + 1) + (gutter + size))
        by (nonlinear_arith);
}

/// Neighbours in a column of the grid lie exactly `size + gutter` base lengths
/// apart, one above the other.
pub proof fn lemma_rows_tile(col: int, row: int, size: int, gutter: int)
    ensures
        coors(col, row + 1, size, gutter).1 - coors(col, row, size, gutter).1 == PARENT_UNIT * (
        size + gutter),
        coors(col, row + 1, size, gutter).0 == coors(col, row, size, gutter).0,
{
    assert((gutter + size) * (row + 2) == (gutter + size) * (row + 1) + (gutter + size))
        by (nonlinear_arith);
}

/// For every cell of the grid the letter's index lies within the seed, and it
/// is the sum of column and row.
pub proof fn lemma_letter_index_in_bounds(col: int, row: int, len: int)
    requires
        len >= 2,
        0 <= col < COLS,
        0 <= row < len - 1,
    ensures
        0 <= letter_index(col, row, len) < len,
        letter_index(col, row, len) == col + row,
{
    lemma_fundamental_div_mod_converse(col + row, len, 0, col + row);
}

/// Two runs on the same seed, size and gutter build the same grid.
pub proof fn lemma_runs_agree(
    size: int,
    gutter: int,
    seed: Seq<char>,
    first: Seq<CellView>,
    second: Seq<CellView>,
)
    requires
        first == grid_model(size, gutter, seed),
        second == grid_model(size, gutter, seed),
    ensures
        first == second,
{
}

/// The centre of the top-level cell in column `col` and row `row`, in halves of
/// the base length.
pub fn get_coors(col: usize, row: usize, size: i32, gutter: i32) -> (pos: (i128, i128))
    ensures
        pos.0 == coors(col as int, row as int, size as int, gutter as int).0,
        pos.1 == coors(col as int, row as int, size as int, gutter as int).1,
        -0x4_0000_0000_0000_0000_0000_0000 <= pos.0 <= 0x4_0000_0000_0000_0000_0000_0000,
        -0x4_0000_0000_0000_0000_0000_0000 <= pos.1 <= 0x4_0000_0000_0000_0000_0000_0000,
{
    let pitch: i128 = gutter as i128 + size as i128;
    let across: i128 = col as i128 + 1;
    let down: i128 = row as i128 + 1;
    assert(-0x1_0000_0000_0000_0000_0000_0000 <= pitch * across
        <= 0x1_0000_0000_0000_0000_0000_0000) by (nonlinear_arith)
        requires
            -0x1_0000_0000 <= pitch <= 0x1_0000_0000,
            0 <= across <= 0x1_0000_0000_0000_0000,
    ;
    assert(-0x1_0000_0000_0000_0000_0000_0000 <= pitch * down
        <= 0x1_0000_0000_0000_0000_0000_0000) by (nonlinear_arith)
        requires
            -0x1_0000_0000 <= pitch <= 0x1_0000_0000,
            0 <= down <= 0x1_0000_0000_0000_0000,
    ;
    (2 * (pitch * across) - 4 * (size as i128), 2 * (pitch * down) - 15 * (size as i128))
}

/// The top-level cell of column `col` and row `row`, not yet subdivided.
pub fn parent_cell(col: usize, row: usize, size: i32, gutter: i32, letter: char, fill: bool) -> (parent:
    Cell)
    ensures
        parent@ == bare_parent(col as int, row as int, size as int, gutter as int, letter, fill),
        well_formed(parent@),
        parent.can_subdivide_twice(),
{
    Cell {
        unit: PARENT_UNIT,
        size: 2 * (size as i128),
        pos: get_coors(col, row, size, gutter),
        cells: None,
        col: col % 2 == 0,
        letter: Some(letter),
        fill,
    }
}

/// The characters of a string, in order.
pub fn chars_of(text: &str) -> (chars: Vec<char>)
    ensures
        chars@ == text@,
{
    let len: usize = text.unicode_len();
    let mut chars: Vec<char> = Vec::new();
    let mut at: usize = 0;
    while at < len
        invariant
            len == text@.len(),
            at <= len,
            chars@ == text@.subrange(0, at as int),
        decreases len - at,
    {
        chars.push(text.get_char(at));
        at = at + 1;
        assert(chars@ =~= text@.subrange(0, at as int));
    }
    assert(chars@ =~= text@);
    chars
}

/// Builds the grid of a seed.
///
/// The grid has two columns and one row less than the seed has characters. The
/// cell in column `col` and row `row` stands for character `col + row` of the
/// seed. One generator, seeded from the whole seed, gives every cell its `fill`
/// and the number of the quadrant that is subdivided a second time; the cells
/// follow each other column by column.
pub fn gen_grid(size: i32, gutter: i32, seed: &str) -> (grid: Vec<Cell>)
    requires
        seed@.len() >= 2,
    ensures
        views(grid@) == grid_model(size as int, gutter as int, seed@),
        grid@.len() == 2 * (seed@.len() - 1),
        forall|k: int|
            0 <= k < grid@.len() ==> parent_shape(#[trigger] grid@[k]@) && well_formed(grid@[k]@),
{
    let chars: Vec<char> = chars_of(seed);
    let rows: usize = chars.len() - 1;
    let mut rng: Pcg64 = rng_from_text(seed);
    let mut grid: Vec<Cell> = Vec::new();
    let mut col: usize = 0;
    while col < COLS
        invariant
            chars@ == seed@,
            seed@.len() >= 2,
            rows == seed@.len() - 1,
            col <= COLS,
            grid@.len() == col * rows,
            rng_state(rng) == shared_state(seed@, grid@.len()),
            forall|k: int|
                0 <= k < grid@.len() ==> {
                    &&& (#[trigger] grid@[k])@ == parent_model(
                        size as int,
                        gutter as int,
                        seed@,
                        k,
                    )
                    &&& parent_shape(grid@[k]@)
                    &&& well_formed(grid@[k]@)
                },
        decreases COLS - col,
    {
        let mut row: usize = 0;
        while row < rows
            invariant
                chars@ == seed@,
                seed@.len() >= 2,
                rows == seed@.len() - 1,
                col < COLS,
                row <= rows,
                grid@.len() == col * rows + row,
                rng_state(rng) == shared_state(seed@, grid@.len()),
                forall|k: int|
                    0 <= k < grid@.len() ==> {
                        &&& (#[trigger] grid@[k])@ == parent_model(
                            size as int,
                            gutter as int,
                            seed@,
                            k,
                        )
                        &&& parent_shape(grid@[k]@)
                        &&& well_formed(grid@[k]@)
                    },
            decreases rows - row,
        {
            let ghost k = grid@.len() as int;
            proof {
                lemma_fundamental_div_mod_converse(k, rows as int, col as int, row as int);
                lemma_letter_index_in_bounds(col as int, row as int, seed@.len() as int);
            }
            let fill: bool = flip(&mut rng);
            let letter: char = chars[col + row];
            let mut parent: Cell = parent_cell(col, row, size, gutter, letter, fill);
            let mut letter_rng: Pcg64 = rng_from_letter(Some(letter));
            let child_fill: bool = flip(&mut letter_rng);
            let chosen: usize = pick_quadrant(&mut rng);
            let mut blank_rng: Pcg64 = rng_from_letter(None);
            let inner_fill: bool = flip(&mut blank_rng);
            parent.split_twice(child_fill, chosen, inner_fill);
            proof {
                lemma_subdivided_twice_shape(
                    bare_parent(col as int, row as int, size as int, gutter as int, letter, fill),
                    child_fill,
                    chosen as int,
                    inner_fill,
                );
                assert(parent@ == parent_model(size as int, gutter as int, seed@, k));
            }
            grid.push(parent);
            row = row + 1;
        }
        col = col + 1;
        assert(grid@.len() == col * rows) by (nonlinear_arith)
            requires
                grid@.len() == (col - 1) * rows + rows,
        ;
    }
    proof {
        assert(col == COLS);
        assert(views(grid@) =~= grid_model(size as int, gutter as int, seed@));
    }
    grid
}

} // verus!
