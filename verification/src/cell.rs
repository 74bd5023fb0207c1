//! Cells and the subdivision rule.

use vstd::prelude::*;
use rand_pcg::Pcg64;
use crate::rng::{bool_draw, flip, rng_from_letter, state_from_letter};

verus! {

/// One element of the grid, at any depth.
///
/// `size` and `pos` count `1/unit`-ths of the base length: a cell of size 120
/// and unit 2 is 60 base lengths wide. `cells` holds the four quadrants of a
/// subdivided cell and is `None` for a leaf. `col` is passed down from the
/// top-level column, `letter` is carried by top-level cells only, and `fill`
/// says whether the cell is drawn filled or as an outline.
#[derive(Debug, PartialEq, Eq)]
pub struct Cell {
    pub unit: i128,
    pub size: i128,
    pub pos: (i128, i128),
    pub cells: Option<Vec<Cell>>,
    pub col: bool,
    pub letter: Option<char>,
    pub fill: bool,
}

/// What a cell is, as a mathematical value.
pub ghost struct CellView {
    pub unit: int,
    pub size: int,
    pub pos: (int, int),
    pub cells: Option<Seq<CellView>>,
    pub col: bool,
    pub letter: Option<char>,
    pub fill: bool,
}

/// The view of one cell. Its quadrants are viewed one after the other by
/// `row_view`.
pub open spec fn cell_view(cell: Cell) -> CellView
    decreases cell, 0nat,
{
    CellView {
        unit: cell.unit as int,
        size: cell.size as int,
        pos: (cell.pos.0 as int, cell.pos.1 as int),
        cells: match cell.cells {
            None => None,
            Some(v) => Some(row_view(v@, v@.len())),
        },
        col: cell.col,
        letter: cell.letter,
        fill: cell.fill,
    }
}

/// The views of the first `n` cells of a row.
pub open spec fn row_view(cells: Seq<Cell>, n: nat) -> Seq<CellView>
    decreases cells, n,
{
    if n == 0 || n > cells.len() {
        Seq::empty()
    } else {
        row_view(cells, (n - 1) as nat).push(cell_view(cells[n - 1]))
    }
}

impl View for Cell {
    type V = CellView;

    open spec fn view(&self) -> CellView {
        cell_view(*self)
    }
}

/// The views of a row of cells, one for one.
pub open spec fn views(cells: Seq<Cell>) -> Seq<CellView> {
    Seq::new(cells.len(), |i: int| cells[i]@)
}

/// `row_view` yields one view for each of the cells it is asked for, in order.
pub proof fn lemma_row_view(cells: Seq<Cell>, n: nat)
    requires
        n <= cells.len(),
    ensures
        row_view(cells, n).len() == n,
        forall|i: int| 0 <= i < n ==> row_view(cells, n)[i] == cells[i]@,
    decreases n,
{
    if n > 0 {
        lemma_row_view(cells, (n - 1) as nat);
    }
}

/// The largest magnitude that `unit`, `size` and either coordinate of a cell may
/// have for its quadrants to be computed in 128 bits: two to the 120th.
pub const SUBDIVIDE_LIMIT: i128 = 0x0100_0000_0000_0000_0000_0000_0000_0000;

/// The largest magnitude that they may have for the quadrants' quadrants to be
/// computed as well: two to the 116th.
pub const SUBDIVIDE_TWICE_LIMIT: i128 = 0x0010_0000_0000_0000_0000_0000_0000_0000;

/// Whether quadrant `k` lies right of its parent's centre: quadrants 2 and 3 do.
pub open spec fn is_right(k: int) -> bool {
    k >= 2
}

/// Whether quadrant `k` lies above its parent's centre: quadrants 0 and 2 do.
pub open spec fn is_upper(k: int) -> bool {
    k % 2 == 0
}

/// The distance `d`, counted forwards or backwards.
pub open spec fn toward(forwards: bool, d: int) -> int {
    if forwards {
        d
    } else {
        -d
    }
}

/// Quadrant `k` of a cell: a leaf at four times the parent's resolution, half the
/// parent's size less two base lengths, its centre a quarter of the parent's
/// size away from the parent's centre on both axes.
pub open spec fn quadrant(parent: CellView, k: int, fill: bool) -> CellView {
    CellView {
        unit: 4 * parent.unit,
        size: 2 * parent.size - 8 * parent.unit,
        pos: (
            4 * parent.pos.0 + toward(is_right(k), parent.size),
            4 * parent.pos.1 + toward(is_upper(k), parent.size),
        ),
        cells: None,
        col: parent.col,
        letter: None,
        fill,
    }
}

/// The four quadrants in their fixed order: left upper, left lower, right upper,
/// right lower.
pub open spec fn quadrants(parent: CellView, fill: bool) -> Seq<CellView> {
    Seq::new(4, |k: int| quadrant(parent, k, fill))
}

/// The cell with its four quadrants attached, whatever it held before.
pub open spec fn subdivided(parent: CellView, fill: bool) -> CellView {
    CellView { cells: Some(quadrants(parent, fill)), ..parent }
}

/// The `fill` flag that a subdivision gives to its four quadrants: the first coin
/// of a generator seeded from the subdivided cell's letter.
pub open spec fn letter_fill(letter: Option<char>) -> bool {
    bool_draw(state_from_letter(letter)).0
}

/// A cell is well formed when its unit is positive and it has either no
/// quadrants or four well-formed ones without letters.
pub open spec fn well_formed(cell: CellView) -> bool
    decreases cell,
{
    &&& cell.unit > 0
    &&& match cell.cells {
        None => true,
        Some(kids) => {
            &&& kids.len() == 4
            &&& forall|i: int|
                0 <= i < kids.len() ==> (#[trigger] kids[i]).letter is None && well_formed(
                    kids[i],
                )
        },
    }
}

/// The cell subdivided, and its quadrant `chosen` subdivided once more.
pub open spec fn subdivided_twice(
    parent: CellView,
    fill: bool,
    chosen: int,
    inner_fill: bool,
) -> CellView {
    let kids = quadrants(parent, fill);
    CellView { cells: Some(kids.update(chosen, subdivided(kids[chosen], inner_fill))), ..parent }
}

/// A cell without quadrants.
pub open spec fn is_leaf(cell: CellView) -> bool {
    cell.cells is None
}

/// A cell with exactly four quadrants, all of them leaves.
pub open spec fn is_split_once(cell: CellView) -> bool {
    &&& cell.cells matches Some(kids)
    &&& kids.len() == 4
    &&& forall|j: int| 0 <= j < 4 ==> is_leaf(#[trigger] kids[j])
}

/// The shape of a finished top-level cell: exactly four quadrants, exactly one of
/// which has exactly four quadrants of its own, and leaves everywhere else.
pub open spec fn parent_shape(cell: CellView) -> bool {
    &&& cell.cells matches Some(kids)
    &&& kids.len() == 4
    &&& exists|r: int|
        {
            &&& 0 <= r < 4
            &&& is_split_once(#[trigger] kids[r])
            &&& forall|i: int| 0 <= i < 4 && i != r ==> is_leaf(#[trigger] kids[i])
        }
}

/// Whether the cell carries a letter with a code point of 16 or more, that is
/// with at least two hexadecimal digits.
pub open spec fn has_wide_letter(cell: CellView) -> bool {
    cell.letter matches Some(letter) && letter as nat >= 16
}

/// The view of a cell's quadrants is the row of their views.
pub proof fn lemma_view_cells(cell: Cell)
    ensures
        cell.cells is None ==> cell@.cells is None,
        cell.cells matches Some(v) ==> cell@.cells == Some(views(v@)),
{
    match cell.cells {
        None => {},
        Some(v) => {
            lemma_row_view(v@, v@.len());
            assert(cell@.cells->0 =~= views(v@));
        },
    }
}

/// In base lengths a quadrant is exactly half its parent's size less two, and
/// its centre lies exactly a quarter of the parent's size from the parent's
/// centre: to the right for quadrants 2 and 3, upwards for quadrants 0 and 2.
pub proof fn lemma_quadrant_exact(parent: CellView, k: int, fill: bool)
    requires
        0 <= k < 4,
    ensures
        ({
            let q = quadrant(parent, k, fill);
            &&& 2 * parent.unit * q.size == q.unit * (parent.size - 4 * parent.unit)
            &&& 4 * (parent.unit * q.pos.0 - q.unit * parent.pos.0) == toward(
                is_right(k),
                q.unit * parent.size,
            )
            &&& 4 * (parent.unit * q.pos.1 - q.unit * parent.pos.1) == toward(
                is_upper(k),
                q.unit * parent.size,
            )
        }),
{
    let u = parent.unit;
    let s = parent.size;
    let x = parent.pos.0;
    let y = parent.pos.1;
    assert(2 * u * (2 * s - 8 * u) == (4 * u) * (s - 4 * u)) by (nonlinear_arith);
    assert(4 * (u * (4 * x + (-s)) - (4 * u) * x) == -((4 * u) * s)) by (nonlinear_arith);
    assert(4 * (u * (4 * x + s) - (4 * u) * x) == (4 * u) * s) by (nonlinear_arith);
    assert(4 * (u * (4 * y + (-s)) - (4 * u) * y) == -((4 * u) * s)) by (nonlinear_arith);
    assert(4 * (u * (4 * y + s) - (4 * u) * y) == (4 * u) * s) by (nonlinear_arith);
}

/// Subdividing a well-formed cell leaves it well formed.
pub proof fn lemma_subdivided_well_formed(parent: CellView, fill: bool)
    requires
        parent.unit > 0,
    ensures
        well_formed(subdivided(parent, fill)),
{
    let kids = quadrants(parent, fill);
    assert forall|i: int| 0 <= i < kids.len() implies (#[trigger] kids[i]).letter is None
        && well_formed(kids[i]) by {
        assert(kids[i] == quadrant(parent, i, fill));
    }
}

/// A cell subdivided twice has the shape of a finished top-level cell, and is
/// well formed if its unit is positive.
pub proof fn lemma_subdivided_twice_shape(
    parent: CellView,
    fill: bool,
    chosen: int,
    inner_fill: bool,
)
    requires
        0 <= chosen < 4,
    ensures
        parent_shape(subdivided_twice(parent, fill, chosen, inner_fill)),
        parent.unit > 0 ==> well_formed(subdivided_twice(parent, fill, chosen, inner_fill)),
{
    let done = subdivided_twice(parent, fill, chosen, inner_fill);
    let kids = done.cells->0;
    let inner = kids[chosen];
    assert(inner == subdivided(quadrant(parent, chosen, fill), inner_fill));
    assert forall|j: int| 0 <= j < 4 implies is_leaf(#[trigger] (inner.cells->0)[j]) by {}
    assert(is_split_once(kids[chosen]));
    assert forall|i: int| 0 <= i < 4 && i != chosen implies is_leaf(#[trigger] kids[i]) by {}
    if parent.unit > 0 {
        lemma_subdivided_well_formed(quadrant(parent, chosen, fill), inner_fill);
        assert forall|i: int| 0 <= i < kids.len() implies (#[trigger] kids[i]).letter is None
            && well_formed(kids[i]) by {
            if i != chosen {
                assert(kids[i] == quadrant(parent, i, fill));
            }
        }
    }
}

/// Copies of the cells of a row, in order.
pub fn clone_row(kids: &Vec<Cell>) -> (copies: Vec<Cell>)
    ensures
        views(copies@) == views(kids@),
    decreases kids, 1nat,
{
    let mut copies: Vec<Cell> = Vec::new();
    let mut at: usize = 0;
    while at < kids.len()
        invariant
            at <= kids@.len(),
            copies@.len() == at,
            forall|j: int| 0 <= j < at ==> (#[trigger] copies@[j])@ == kids@[j]@,
        decreases kids@.len() - at,
    {
        copies.push(kids[at].clone());
        at = at + 1;
    }
    proof {
        assert(views(copies@) =~= views(kids@));
    }
    copies
}

impl Clone for Cell {
    /// A copy of the cell and of everything below it.
    fn clone(&self) -> (copy: Cell)
        ensures
            copy@ == self@,
        decreases self, 0nat,
    {
        let cells: Option<Vec<Cell>> = match &self.cells {
            None => None,
            Some(kids) => Some(clone_row(kids)),
        };
        let copy = Cell {
            unit: self.unit,
            size: self.size,
            pos: self.pos,
            cells,
            col: self.col,
            letter: self.letter,
            fill: self.fill,
        };
        proof {
            lemma_view_cells(*self);
            lemma_view_cells(copy);
        }
        copy
    }
}

impl Cell {
    /// Whether the cell's numbers are small enough for its quadrants to be
    /// computed without overflow.
    pub open spec fn can_subdivide(&self) -> bool {
        &&& -SUBDIVIDE_LIMIT <= self.unit <= SUBDIVIDE_LIMIT
        &&& -SUBDIVIDE_LIMIT <= self.size <= SUBDIVIDE_LIMIT
        &&& -SUBDIVIDE_LIMIT <= self.pos.0 <= SUBDIVIDE_LIMIT
        &&& -SUBDIVIDE_LIMIT <= self.pos.1 <= SUBDIVIDE_LIMIT
    }

    /// Whether the cell's numbers are small enough for its quadrants, and theirs,
    /// to be computed without overflow.
    pub open spec fn can_subdivide_twice(&self) -> bool {
        &&& -SUBDIVIDE_TWICE_LIMIT <= self.unit <= SUBDIVIDE_TWICE_LIMIT
        &&& -SUBDIVIDE_TWICE_LIMIT <= self.size <= SUBDIVIDE_TWICE_LIMIT
        &&& -SUBDIVIDE_TWICE_LIMIT <= self.pos.0 <= SUBDIVIDE_TWICE_LIMIT
        &&& -SUBDIVIDE_TWICE_LIMIT <= self.pos.1 <= SUBDIVIDE_TWICE_LIMIT
    }

    /// The four quadrants of the cell, all with the given `fill`.
    pub fn boxes_filled(&self, fill: bool) -> (boxes: Vec<Cell>)
        requires
            self.can_subdivide(),
        ensures
            boxes@.len() == 4,
            views(boxes@) == quadrants(self@, fill),
    {
        let unit: i128 = 4 * self.unit;
        let size: i128 = 2 * self.size - 8 * self.unit;
        let left: i128 = 4 * self.pos.0 - self.size;
        let right: i128 = 4 * self.pos.0 + self.size;
        let upper: i128 = 4 * self.pos.1 + self.size;
        let lower: i128 = 4 * self.pos.1 - self.size;
        let col: bool = self.col;
        let boxes: Vec<Cell> = vec![
            Cell { unit, size, pos: (left, upper), cells: None, col, letter: None, fill },
            Cell { unit, size, pos: (left, lower), cells: None, col, letter: None, fill },
            Cell { unit, size, pos: (right, upper), cells: None, col, letter: None, fill },
            Cell { unit, size, pos: (right, lower), cells: None, col, letter: None, fill },
        ];
        proof {
            assert(views(boxes@) =~= quadrants(self@, fill));
        }
        boxes
    }

    /// Attaches the four quadrants, all with the given `fill`, in place of
    /// whatever quadrants the cell had.
    pub fn split(&mut self, fill: bool)
        requires
            old(self).can_subdivide(),
        ensures
            final(self)@ == subdivided(old(self)@, fill),
    {
        let boxes: Vec<Cell> = self.boxes_filled(fill);
        self.cells = Some(boxes);
        proof {
            lemma_view_cells(*self);
        }
    }

    /// Attaches the four quadrants with the given `fill`, and to quadrant
    /// `chosen` four quadrants of its own with `inner_fill`.
    pub fn split_twice(&mut self, fill: bool, chosen: usize, inner_fill: bool)
        requires
            chosen < 4,
            old(self).can_subdivide_twice(),
        ensures
            final(self)@ == subdivided_twice(old(self)@, fill, chosen as int, inner_fill),
    {
        let mut boxes: Vec<Cell> = self.boxes_filled(fill);
        let ghost kids = views(boxes@);
        assert(kids[chosen as int] == quadrant(self@, chosen as int, fill));
        assert(boxes@[chosen as int]@ == kids[chosen as int]);
        boxes[chosen].split(inner_fill);
        proof {
            assert(views(boxes@) =~= kids.update(
                chosen as int,
                subdivided(kids[chosen as int], inner_fill),
            )) by {
                assert forall|i: int| 0 <= i < 4 implies (#[trigger] views(boxes@)[i])
                    == kids.update(chosen as int, subdivided(kids[chosen as int], inner_fill))[i] by {
                    if i != chosen {
                        assert(views(boxes@)[i] == kids[i]);
                    }
                }
            }
        }
        self.cells = Some(boxes);
        proof {
            lemma_view_cells(*self);
        }
    }

    /// The four quadrants of the cell. Their common `fill` is the first coin of
    /// a generator seeded from the cell's letter. The cell itself is left as it
    /// was.
    pub fn gen_boxes(&mut self) -> (boxes: Option<Vec<Cell>>)
        requires
            old(self).can_subdivide(),
        ensures
            *final(self) == *old(self),
            boxes matches Some(v) && views(v@) == quadrants(
                old(self)@,
                letter_fill(old(self).letter),
            ),
    {
        let mut rng: Pcg64 = rng_from_letter(self.letter);
        let fill: bool = flip(&mut rng);
        Some(self.boxes_filled(fill))
    }

    /// Subdivides the cell in place: `cells` becomes the result of `gen_boxes`.
    pub fn gen_cells(&mut self)
        requires
            old(self).can_subdivide(),
        ensures
            final(self)@ == subdivided(old(self)@, letter_fill(old(self).letter)),
    {
        let boxes: Option<Vec<Cell>> = self.gen_boxes();
        self.cells = boxes;
        proof {
            lemma_view_cells(*self);
        }
    }
}

} // verus!
