//! The generation parameters together with the grid built from them.

use vstd::prelude::*;
use crate::cell::{clone_row, has_wide_letter, parent_shape, views, well_formed, Cell};
use crate::grid::{gen_grid, grid_model, lemma_letter_index_in_bounds};

verus! {

/// The parameters of one picture and its grid. Built once, read afterwards.
#[derive(Debug)]
pub struct Model {
    pub size: i32,
    pub gutter: i32,
    pub grid: Vec<Cell>,
    pub seed: String,
}

impl Clone for Model {
    /// A copy of the parameters and of the whole grid.
    fn clone(&self) -> (copy: Model)
        ensures
            copy.size == self.size,
            copy.gutter == self.gutter,
            copy.seed@ == self.seed@,
            views(copy.grid@) == views(self.grid@),
    {
        Model {
            size: self.size,
            gutter: self.gutter,
            grid: clone_row(&self.grid),
            seed: self.seed.clone(),
        }
    }
}

impl Model {
    /// Every top-level cell of the grid carries a letter.
    pub open spec fn lettered(&self) -> bool {
        forall|k: int| 0 <= k < self.grid@.len() ==> (#[trigger] self.grid@[k]).letter is Some
    }

    /// The grid is the one that `gen_grid` builds from the parameters.
    pub open spec fn generated(&self) -> bool {
        views(self.grid@) == grid_model(self.size as int, self.gutter as int, self.seed@)
    }
}

/// The picture's model: cells of 60 base lengths, a gutter of 4, and the grid of
/// the seed `empowerglobant`. Every letter of that seed has two hexadecimal
/// digits, so the render walk cannot fail on this model.
pub fn model() -> (m: Model)
    ensures
        m.size == 60,
        m.gutter == 4,
        m.seed@ == "empowerglobant"@,
        m.generated(),
        m.lettered(),
        m.grid@.len() == 26,
        forall|k: int|
            0 <= k < m.grid@.len() ==> {
                &&& parent_shape(#[trigger] m.grid@[k]@)
                &&& well_formed(m.grid@[k]@)
                &&& has_wide_letter(m.grid@[k]@)
            },
{
    let size: i32 = 60;
    let gutter: i32 = 4;
    let seed: String = "empowerglobant".to_owned();
    proof {
        reveal_strlit("empowerglobant");
    }
    let grid: Vec<Cell> = gen_grid(size, gutter, seed.as_str());
    proof {
        assert forall|i: int| 0 <= i < 14 implies (#[trigger] seed@[i]) as nat >= 16 by {}
        assert forall|k: int| 0 <= k < grid@.len() implies (#[trigger] grid@[k]).letter is Some
            && has_wide_letter(grid@[k]@) by {
            assert(views(grid@)[k] == grid_model(size as int, gutter as int, seed@)[k]);
            lemma_letter_index_in_bounds(k / 13, k % 13, 14);
        }
    }
    Model { size, gutter, grid, seed }
}

} // verus!
