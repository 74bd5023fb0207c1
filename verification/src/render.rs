//! The render walk: one draw request for every leaf cell.
//!
//! The walk goes through the quadrants of each top-level cell depth first and
//! keeps a running index into the toggles of the cell's letter. Top-level
//! quadrant `i` is walked with index `i`; a walk that goes down from a cell with
//! index `curr` into its quadrant `j` goes on with index `curr + j + 1`. The
//! toggle of a leaf is the one at the index with which the walk reaches it.

use vstd::prelude::*;
use crate::bits::{bits_of, lemma_eight_bits, letter_bits};
use crate::cell::{
    has_wide_letter, is_leaf, is_split_once, lemma_view_cells, parent_shape, views, Cell,
    CellView,
};
use crate::model::Model;

verus! {

/// The outline of a drawn cell.
#[derive(Clone, Copy, Debug, PartialEq, Eq)]
pub enum Shape {
    Ellipse,
    Rect,
}

/// What is to be drawn for one leaf: the shape, where and how large (in
/// `1/unit`-ths of the base length), filled or as an outline, and with which of
/// the two colours (`lit` is the leaf's toggle).
#[derive(Clone, Copy, Debug, PartialEq, Eq)]
pub struct DrawRequest {
    pub shape: Shape,
    pub unit: i128,
    pub pos: (i128, i128),
    pub size: i128,
    pub filled: bool,
    pub lit: bool,
}

/// What a draw request is, as a mathematical value.
pub ghost struct DrawView {
    pub shape: Shape,
    pub unit: int,
    pub pos: (int, int),
    pub size: int,
    pub filled: bool,
    pub lit: bool,
}

impl View for DrawRequest {
    type V = DrawView;

    open spec fn view(&self) -> DrawView {
        DrawView {
            shape: self.shape,
            unit: self.unit as int,
            pos: (self.pos.0 as int, self.pos.1 as int),
            size: self.size as int,
            filled: self.filled,
            lit: self.lit,
        }
    }
}

/// Why a walk failed.
#[derive(Clone, Copy, Debug, PartialEq, Eq)]
pub enum WalkError {
    /// A leaf was reached with an index at or beyond the number of toggles.
    IndexOutOfRange,
}

/// The views of a row of draw requests, one for one.
pub open spec fn draw_views(requests: Seq<DrawRequest>) -> Seq<DrawView> {
    Seq::new(requests.len(), |i: int| requests[i]@)
}

/// The leaves at and below `cell` in drawing order, each with the index with
/// which a walk that enters `cell` with index `curr` reaches it.
pub open spec fn leaves(cell: CellView, curr: int) -> Seq<(CellView, int)>
    decreases cell, 0nat,
{
    match cell.cells {
        None => seq![(cell, curr)],
        Some(kids) => row_leaves(kids, curr + 1, kids.len()),
    }
}

/// The leaves at and below the first `n` cells of a row, where cell `j` of the
/// row is entered with index `first + j`.
pub open spec fn row_leaves(kids: Seq<CellView>, first: int, n: nat) -> Seq<(CellView, int)>
    decreases kids, n,
{
    if n == 0 || n > kids.len() {
        Seq::empty()
    } else {
        row_leaves(kids, first, (n - 1) as nat) + leaves(kids[n - 1], first + n - 1)
    }
}

/// The leaves below a top-level cell: its quadrant `i` is entered with index
/// `i`. A top-level cell without quadrants has none.
pub open spec fn parent_leaves(parent: CellView) -> Seq<(CellView, int)> {
    match parent.cells {
        None => Seq::empty(),
        Some(kids) => row_leaves(kids, 0, kids.len()),
    }
}

/// Whether every index is one of `len` toggles.
pub open spec fn all_in_range(found: Seq<(CellView, int)>, len: int) -> bool {
    forall|i: int| 0 <= i < found.len() ==> 0 <= (#[trigger] found[i]).1 < len
}

/// The request for one leaf: an ellipse if its column flag is set and a
/// rectangle if not, at the leaf's place and size, filled as the leaf says.
pub open spec fn request_of(leaf: CellView, lit: bool) -> DrawView {
    DrawView {
        shape: if leaf.col {
            Shape::Ellipse
        } else {
            Shape::Rect
        },
        unit: leaf.unit,
        pos: leaf.pos,
        size: leaf.size,
        filled: leaf.fill,
        lit,
    }
}

/// One request for each leaf, with the toggle at the leaf's index.
pub open spec fn requests_of(found: Seq<(CellView, int)>, bits: Seq<bool>) -> Seq<DrawView> {
    Seq::new(found.len(), |i: int| request_of(found[i].0, bits[found[i].1]))
}

/// The toggles of a top-level cell: those of its letter.
pub open spec fn parent_bits(parent: CellView) -> Seq<bool> {
    bits_of(parent.letter->0 as nat)
}

/// Whether the walk below a top-level cell stays within the toggles of its
/// letter.
pub open spec fn parent_in_range(parent: CellView) -> bool {
    all_in_range(parent_leaves(parent), parent_bits(parent).len() as int)
}

/// The requests of the first `n` top-level cells, in order.
pub open spec fn grid_requests(parents: Seq<CellView>, n: nat) -> Seq<DrawView>
    decreases n,
{
    if n == 0 || n > parents.len() {
        Seq::empty()
    } else {
        grid_requests(parents, (n - 1) as nat) + requests_of(
            parent_leaves(parents[n - 1]),
            parent_bits(parents[n - 1]),
        )
    }
}

/// A walk that enters a split-once cell with index `curr` reaches its four
/// leaves with the indices `curr + 1` to `curr + 4`.
pub proof fn lemma_split_once_leaves(cell: CellView, curr: int)
    requires
        is_split_once(cell),
    ensures
        leaves(cell, curr).len() == 4,
        forall|j: int| 0 <= j < 4 ==> (#[trigger] leaves(cell, curr)[j]).1 == curr + 1 + j,
{
    let kids = cell.cells->0;
    reveal_with_fuel(row_leaves, 5);
    assert(is_leaf(kids[0]) && is_leaf(kids[1]) && is_leaf(kids[2]) && is_leaf(kids[3]));
    assert(leaves(kids[0], curr + 1) =~= seq![(kids[0], curr + 1)]);
    assert(leaves(kids[1], curr + 2) =~= seq![(kids[1], curr + 2)]);
    assert(leaves(kids[2], curr + 3) =~= seq![(kids[2], curr + 3)]);
    assert(leaves(kids[3], curr + 4) =~= seq![(kids[3], curr + 4)]);
    let first = curr + 1;
    assert(row_leaves(kids, first, 0) =~= Seq::empty());
    assert(row_leaves(kids, first, 1) =~= seq![(kids[0], curr + 1)]);
    assert(row_leaves(kids, first, 2) =~= seq![(kids[0], curr + 1), (kids[1], curr + 2)]);
    assert(row_leaves(kids, first, 3) =~= seq![
        (kids[0], curr + 1),
        (kids[1], curr + 2),
        (kids[2], curr + 3),
    ]);
    assert(leaves(cell, curr) =~= seq![
        (kids[0], curr + 1),
        (kids[1], curr + 2),
        (kids[2], curr + 3),
        (kids[3], curr + 4),
    ]);
}

/// Below a cell entered with index `curr` every leaf is reached with an index
/// of at least `curr` and at most `curr + 4` where the cell is a leaf or split
/// once.
pub proof fn lemma_shallow_leaves(cell: CellView, curr: int)
    requires
        is_leaf(cell) || is_split_once(cell),
    ensures
        forall|j: int|
            0 <= j < leaves(cell, curr).len() ==> curr <= (#[trigger] leaves(cell, curr)[j]).1
                <= curr + 4,
{
    if is_split_once(cell) {
        lemma_split_once_leaves(cell, curr);
    }
}

/// The walk below a finished top-level cell never needs more than eight toggles:
/// its largest index is seven.
pub proof fn lemma_shaped_parent_in_range(parent: CellView, len: int)
    requires
        parent_shape(parent),
        len >= 8,
    ensures
        all_in_range(parent_leaves(parent), len),
{
    let kids = parent.cells->0;
    let found = parent_leaves(parent);
    reveal_with_fuel(row_leaves, 5);
    assert forall|i: int| 0 <= i < 4 implies is_leaf(#[trigger] kids[i]) || is_split_once(
        kids[i],
    ) by {}
    lemma_shallow_leaves(kids[0], 0);
    lemma_shallow_leaves(kids[1], 1);
    lemma_shallow_leaves(kids[2], 2);
    lemma_shallow_leaves(kids[3], 3);
    let a = leaves(kids[0], 0);
    let b = leaves(kids[1], 1);
    let c = leaves(kids[2], 2);
    let d = leaves(kids[3], 3);
    assert(row_leaves(kids, 0, 0) =~= Seq::empty());
    assert(row_leaves(kids, 0, 1) =~= a);
    assert(row_leaves(kids, 0, 2) =~= a + b);
    assert(row_leaves(kids, 0, 3) =~= a + b + c);
    assert(found =~= a + b + c + d);
    assert forall|i: int| 0 <= i < found.len() implies 0 <= (#[trigger] found[i]).1 < len by {
        if i < a.len() {
            assert(found[i] == a[i]);
        } else if i < a.len() + b.len() {
            assert(found[i] == b[i - a.len()]);
        } else if i < a.len() + b.len() + c.len() {
            assert(found[i] == c[i - a.len() - b.len()]);
        } else {
            assert(found[i] == d[i - a.len() - b.len() - c.len()]);
        }
    }
}

/// A finished top-level cell whose letter has a code point of 16 or more is
/// walked within its toggles.
pub proof fn lemma_parent_in_range(parent: CellView)
    requires
        parent_shape(parent),
        has_wide_letter(parent),
    ensures
        parent_in_range(parent),
{
    lemma_eight_bits(parent.letter->0 as nat);
    lemma_shaped_parent_in_range(parent, parent_bits(parent).len() as int);
}

/// Leaves found in a longer row include those found in a shorter one: where the
/// first `n` cells of a row are not walked within `len` toggles, the first `m`
/// are not either.
pub proof fn lemma_row_leaves_grow(kids: Seq<CellView>, first: int, n: nat, m: nat, len: int)
    requires
        n <= m <= kids.len(),
        !all_in_range(row_leaves(kids, first, n), len),
    ensures
        !all_in_range(row_leaves(kids, first, m), len),
    decreases m,
{
    if n < m {
        lemma_row_leaves_grow(kids, first, n, (m - 1) as nat, len);
        let front = row_leaves(kids, first, (m - 1) as nat);
        let back = leaves(kids[m - 1], first + m - 1);
        let i = choose|i: int| 0 <= i < front.len() && !(0 <= (#[trigger] front[i]).1 < len);
        assert((front + back)[i] == front[i]);
    }
}

/// Indices of two rows of leaves are in range together exactly if they are in
/// each, and the requests of the joined rows are the joined requests.
pub proof fn lemma_join(
    front: Seq<(CellView, int)>,
    back: Seq<(CellView, int)>,
    bits: Seq<bool>,
)
    ensures
        all_in_range(front + back, bits.len() as int) <==> all_in_range(front, bits.len() as int)
            && all_in_range(back, bits.len() as int),
        requests_of(front + back, bits) == requests_of(front, bits) + requests_of(back, bits),
{
    let len = bits.len() as int;
    let both = front + back;
    if all_in_range(both, len) {
        assert forall|i: int| 0 <= i < front.len() implies 0 <= (#[trigger] front[i]).1 < len by {
            assert(both[i] == front[i]);
        }
        assert forall|i: int| 0 <= i < back.len() implies 0 <= (#[trigger] back[i]).1 < len by {
            assert(both[front.len() + i] == back[i]);
        }
    }
    if all_in_range(front, len) && all_in_range(back, len) {
        assert forall|i: int| 0 <= i < both.len() implies 0 <= (#[trigger] both[i]).1 < len by {
            if i < front.len() {
                assert(both[i] == front[i]);
            } else {
                assert(both[i] == back[i - front.len()]);
            }
        }
    }
    assert(requests_of(front + back, bits) =~= requests_of(front, bits) + requests_of(back, bits));
}

/// `curr`, or `len` if `curr` lies beyond it.
pub open spec fn capped(curr: int, len: int) -> int {
    if curr < len {
        curr
    } else {
        len
    }
}

/// What a walk leaves in `out` when it succeeds: what was there before, followed
/// by the requests of the leaves it found.
pub open spec fn appended(
    before: Seq<DrawRequest>,
    after: Seq<DrawRequest>,
    found: Seq<(CellView, int)>,
    bits: Seq<bool>,
) -> bool {
    &&& after.len() == before.len() + found.len()
    &&& after.take(before.len() as int) == before
    &&& draw_views(after.skip(before.len() as int)) == requests_of(found, bits)
}

/// The draw request of a leaf with the given toggle.
pub fn request(leaf: &Cell, lit: bool) -> (r: DrawRequest)
    ensures
        r@ == request_of(leaf@, lit),
{
    DrawRequest {
        shape: if leaf.col {
            Shape::Ellipse
        } else {
            Shape::Rect
        },
        unit: leaf.unit,
        pos: leaf.pos,
        size: leaf.size,
        filled: leaf.fill,
        lit,
    }
}

/// `at + step`, or `len` if the sum lies beyond it.
fn capped_sum(at: usize, step: usize, len: usize) -> (next: usize)
    requires
        at <= len,
    ensures
        next == capped(at + step, len as int),
{
    if step >= len - at {
        len
    } else {
        at + step
    }
}

/// The walk below one cell. `at` is the running index `curr`, held down to the
/// number of toggles so that it cannot overflow: every index at or beyond that
/// number is out of range alike.
fn walk(
    cell: &Cell,
    indx: &Vec<bool>,
    at: usize,
    Ghost(curr): Ghost<int>,
    out: &mut Vec<DrawRequest>,
) -> (done: Result<(), WalkError>)
    requires
        0 <= curr,
        at == capped(curr, indx@.len() as int),
    ensures
        done is Ok <==> all_in_range(leaves(cell@, curr), indx@.len() as int),
        done is Ok ==> appended(old(out)@, final(out)@, leaves(cell@, curr), indx@),
        done is Err ==> final(out)@ == old(out)@,
    decreases cell, 0nat,
{
    proof {
        lemma_view_cells(*cell);
    }
    match &cell.cells {
        None => {
            let ghost found = leaves(cell@, curr);
            assert(found[0] == (cell@, curr));
            if at < indx.len() {
                let ghost before = out@;
                out.push(request(cell, indx[at]));
                proof {
                    assert(out@.take(before.len() as int) =~= before);
                    assert(draw_views(out@.skip(before.len() as int)) =~= requests_of(found, indx@));
                }
                Ok(())
            } else {
                Err(WalkError::IndexOutOfRange)
            }
        },
        Some(kids) => {
            let next: usize = capped_sum(at, 1, indx.len());
            walk_row(kids, indx, next, Ghost(curr + 1), out)
        },
    }
}

/// The walk below the cells of a row, the first of which is entered with index
/// `first`; `at` is that index, held down to the number of toggles.
fn walk_row(
    kids: &Vec<Cell>,
    indx: &Vec<bool>,
    at: usize,
    Ghost(first): Ghost<int>,
    out: &mut Vec<DrawRequest>,
) -> (done: Result<(), WalkError>)
    requires
        0 <= first,
        at == capped(first, indx@.len() as int),
    ensures
        done is Ok <==> all_in_range(
            row_leaves(views(kids@), first, kids@.len()),
            indx@.len() as int,
        ),
        done is Ok ==> appended(
            old(out)@,
            final(out)@,
            row_leaves(views(kids@), first, kids@.len()),
            indx@,
        ),
        done is Err ==> final(out)@ == old(out)@,
    decreases kids, 1nat,
{
    let ghost before = out@;
    let ghost row = views(kids@);
    let start: usize = out.len();
    let mut ind: usize = 0;
    proof {
        assert(out@.take(before.len() as int) =~= before);
        assert(draw_views(out@.skip(before.len() as int)) =~= requests_of(
            row_leaves(row, first, 0),
            indx@,
        ));
    }
    while ind < kids.len()
        invariant
            0 <= first,
            at == capped(first, indx@.len() as int),
            row == views(kids@),
            before == old(out)@,
            start == before.len(),
            ind <= kids@.len(),
            all_in_range(row_leaves(row, first, ind as nat), indx@.len() as int),
            appended(before, out@, row_leaves(row, first, ind as nat), indx@),
        decreases kids@.len() - ind,
    {
        let ghost so_far = row_leaves(row, first, ind as nat);
        let ghost below = leaves(row[ind as int], first + ind);
        let ghost middle = out@;
        let here: usize = capped_sum(at, ind, indx.len());
        proof {
            assert(row[ind as int] == kids@[ind as int]@);
            assert(row_leaves(row, first, (ind + 1) as nat) == so_far + below);
            lemma_join(so_far, below, indx@);
        }
        match walk(&kids[ind], indx, here, Ghost(first + ind), out) {
            Ok(()) => {
                proof {
                    let b = before.len() as int;
                    let m = middle.len() as int;
                    assert(out@.take(b) =~= out@.take(m).take(b));
                    assert(draw_views(out@.skip(b)) =~= draw_views(middle.skip(b)) + draw_views(
                        out@.skip(m),
                    )) by {
                        assert forall|i: int| 0 <= i < out@.len() - b implies (#[trigger] draw_views(
                            out@.skip(b),
                        )[i]) == (draw_views(middle.skip(b)) + draw_views(out@.skip(m)))[i] by {
                            if i < m - b {
                                assert(out@.take(m)[b + i] == middle[b + i]);
                            }
                        }
                    }
                }
            },
            Err(e) => {
                out.truncate(start);
                proof {
                    assert(out@ =~= before);
                    lemma_row_leaves_grow(row, first, (ind + 1) as nat, kids@.len(), indx@.len() as int);
                }
                return Err(e);
            },
        }
        ind = ind + 1;
    }
    Ok(())
}

/// The walk below one cell that is entered with index `curr`: appends to `out`
/// one request for each leaf at and below `cell`, in drawing order, each with the
/// toggle at the leaf's index. Where a leaf's index lies beyond the toggles
/// nothing is appended and the walk fails.
pub fn cells_iter(cell: &Cell, indx: &Vec<bool>, curr: usize, out: &mut Vec<DrawRequest>) -> (done:
    Result<(), WalkError>)
    ensures
        done is Ok <==> all_in_range(leaves(cell@, curr as int), indx@.len() as int),
        done is Ok ==> appended(old(out)@, final(out)@, leaves(cell@, curr as int), indx@),
        done is Err ==> final(out)@ == old(out)@,
{
    let at: usize = if curr < indx.len() {
        curr
    } else {
        indx.len()
    };
    walk(cell, indx, at, Ghost(curr as int), out)
}

/// Appends to `out` the requests of the leaves below one top-level cell, read
/// with the given toggles. Where a leaf's index lies beyond the toggles nothing
/// is appended and the walk fails.
pub fn parent_requests(parent: &Cell, bits: &Vec<bool>, out: &mut Vec<DrawRequest>) -> (done:
    Result<(), WalkError>)
    ensures
        done is Ok <==> all_in_range(parent_leaves(parent@), bits@.len() as int),
        done is Ok ==> appended(old(out)@, final(out)@, parent_leaves(parent@), bits@),
        done is Err ==> final(out)@ == old(out)@,
{
    proof {
        lemma_view_cells(*parent);
    }
    match &parent.cells {
        None => {
            proof {
                assert(out@.take(out@.len() as int) =~= out@);
                assert(draw_views(out@.skip(out@.len() as int)) =~= requests_of(
                    parent_leaves(parent@),
                    bits@,
                ));
            }
            Ok(())
        },
        Some(kids) => walk_row(kids, bits, 0, Ghost(0), out),
    }
}

/// The requests for a whole picture: for each top-level cell in turn, one for
/// each leaf below it, with the toggles of the cell's letter.
///
/// The walk fails exactly if some leaf is reached with an index beyond the
/// toggles of its letter. That cannot happen on a generated grid whose letters
/// all have a code point of 16 or more.
pub fn draw_boxes(model: &Model) -> (done: Result<Vec<DrawRequest>, WalkError>)
    requires
        model.lettered(),
    ensures
        done is Ok <==> forall|k: int|
            0 <= k < model.grid@.len() ==> parent_in_range(#[trigger] model.grid@[k]@),
        done matches Ok(requests) ==> draw_views(requests@) == grid_requests(
            views(model.grid@),
            model.grid@.len(),
        ),
        (forall|k: int|
            0 <= k < model.grid@.len() ==> parent_shape(#[trigger] model.grid@[k]@)
                && has_wide_letter(model.grid@[k]@)) ==> done is Ok,
{
    let ghost parents = views(model.grid@);
    let mut requests: Vec<DrawRequest> = Vec::new();
    let mut k: usize = 0;
    proof {
        assert(draw_views(requests@) =~= grid_requests(parents, 0));
        assert forall|j: int| 0 <= j < model.grid@.len() && parent_shape(
            #[trigger] model.grid@[j]@,
        ) && has_wide_letter(model.grid@[j]@) implies parent_in_range(model.grid@[j]@) by {
            lemma_parent_in_range(model.grid@[j]@);
        }
    }
    while k < model.grid.len()
        invariant
            model.lettered(),
            parents == views(model.grid@),
            k <= model.grid@.len(),
            forall|j: int| 0 <= j < k ==> parent_in_range(#[trigger] model.grid@[j]@),
            forall|j: int|
                0 <= j < model.grid@.len() && parent_shape(#[trigger] model.grid@[j]@)
                    && has_wide_letter(model.grid@[j]@) ==> parent_in_range(model.grid@[j]@),
            draw_views(requests@) == grid_requests(parents, k as nat),
        decreases model.grid@.len() - k,
    {
        let parent: &Cell = &model.grid[k];
        let letter: char = parent.letter.unwrap();
        let bits: Vec<bool> = letter_bits(letter);
        let ghost before = requests@;
        proof {
            assert(parents[k as int] == parent@);
        }
        match parent_requests(parent, &bits, &mut requests) {
            Ok(()) => {
                proof {
                    let b = before.len() as int;
                    assert(draw_views(requests@) =~= draw_views(before) + draw_views(
                        requests@.skip(b),
                    )) by {
                        assert forall|i: int| 0 <= i < requests@.len() implies (#[trigger] draw_views(
                            requests@,
                        )[i]) == (draw_views(before) + draw_views(requests@.skip(b)))[i] by {
                            if i < b {
                                assert(requests@.take(b)[i] == before[i]);
                            }
                        }
                    }
                }
            },
            Err(e) => {
                return Err(e);
            },
        }
        k = k + 1;
    }
    Ok(requests)
}

} // verus!
