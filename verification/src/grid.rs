//! The puzzle grid: a fixed 9-by-9 board of digits, 0 meaning blank.

use vstd::prelude::*;

verus! {

/// Number of cells on the board.
pub const N_CELLS: usize = 81;

/// A 9-by-9 puzzle grid in row-major order; 0 marks a blank cell.
#[derive(Debug)]
pub struct Grid {
    cells: Vec<u8>,
}

/// Two distinct filled cells collide when they put the same digit in the
/// same row, the same column, or the same box.
pub open spec fn cells_collide(a: int, b: int, va: u8, vb: u8) -> bool {
    va == vb && (a / 9 == b / 9 || a % 9 == b % 9 || (a / 9 / 3 == b / 9 / 3 && a % 9 / 3 == b % 9 / 3))
}

/// A grid has a conflict when two of its givens collide.
pub open spec fn grid_conflict(g: Seq<u8>) -> bool {
    exists|a: int, b: int|
        0 <= a < b < 81 && g[a] != 0 && g[b] != 0 && cells_collide(a, b, g[a], g[b])
}

/// A well-formed view of a grid: 81 cells, each a digit 0 through 9.
pub open spec fn grid_seq_wf(g: Seq<u8>) -> bool {
    g.len() == 81 && forall|i: int| 0 <= i < 81 ==> #[trigger] g[i] <= 9
}

/// `sol` completes the puzzle `g`: every cell is filled with a digit,
/// every given of `g` is kept, and no two cells collide.
pub open spec fn is_solution(sol: Seq<u8>, g: Seq<u8>) -> bool {
    &&& sol.len() == 81
    &&& forall|i: int| 0 <= i < 81 ==> 1 <= #[trigger] sol[i] <= 9
    &&& forall|i: int| 0 <= i < 81 && g[i] != 0 ==> #[trigger] sol[i] == g[i]
    &&& !grid_conflict(sol)
}

impl View for Grid {
    type V = Seq<u8>;

    closed spec fn view(&self) -> Seq<u8> {
        self.cells@
    }
}

impl Grid {
    pub open spec fn wf(self) -> bool {
        grid_seq_wf(self@)
    }

    /// An all-blank grid.
    pub fn blank() -> (g: Grid)
        ensures
            g.wf(),
            g@ =~= Seq::new(81, |i: int| 0u8),
    {
        let mut cells: Vec<u8> = Vec::new();
        let mut i: usize = 0;
        while i < N_CELLS
            invariant
                i <= 81,
                cells@.len() == i,
                forall|k: int| 0 <= k < i ==> cells@[k] == 0u8,
            decreases 81 - i,
        {
            cells.push(0);
            i += 1;
        }
        let g = Grid { cells };
        proof {
            assert(g@ =~= Seq::new(81, |i: int| 0u8));
        }
        g
    }

    /// Builds a grid from 81 row-major cell values; rejects any other
    /// length and any value above 9.
    pub fn from_cells(cells: Vec<u8>) -> (r: Option<Grid>)
        ensures
            r is Some <==> grid_seq_wf(cells@),
            r is Some ==> r->0@ == cells@ && r->0.wf(),
    {
        if cells.len() != N_CELLS {
            return None;
        }
        let mut i: usize = 0;
        while i < N_CELLS
            invariant
                i <= 81,
                cells@.len() == 81,
                forall|k: int| 0 <= k < i ==> #[trigger] cells@[k] <= 9,
            decreases 81 - i,
        {
            if cells[i] > 9 {
                return None;
            }
            i += 1;
        }
        Some(Grid { cells })
    }

    /// The value of the cell in the given row and column.
    pub fn get(&self, row: usize, col: usize) -> (v: u8)
        requires
            self.wf(),
            row < 9,
            col < 9,
        ensures
            v == self@[row * 9 + col],
    {
        self.cells[row * 9 + col]
    }

    /// The value of the cell at the given row-major index.
    pub fn cell(&self, i: usize) -> (v: u8)
        requires
            self.wf(),
            i < 81,
        ensures
            v == self@[i as int],
    {
        self.cells[i]
    }

    /// Writes a digit into one cell.
    pub fn set(&mut self, row: usize, col: usize, v: u8)
        requires
            old(self).wf(),
            row < 9,
            col < 9,
            v <= 9,
        ensures
            final(self).wf(),
            final(self)@ == old(self)@.update(row * 9 + col, v),
    {
        self.cells[row * 9 + col] = v;
    }
}

impl PartialEq for Grid {
    fn eq(&self, other: &Grid) -> (r: bool) {
        if self.cells.len() != other.cells.len() {
            return false;
        }
        let mut i: usize = 0;
        while i < self.cells.len()
            invariant
                i <= self.cells@.len(),
                self.cells@.len() == other.cells@.len(),
                forall|k: int| 0 <= k < i ==> self.cells@[k] == other.cells@[k],
            decreases self.cells@.len() - i,
        {
            if self.cells[i] != other.cells[i] {
                return false;
            }
            i += 1;
        }
        proof {
            assert(self.cells@ =~= other.cells@);
        }
        true
    }
}

impl vstd::std_specs::cmp::PartialEqSpecImpl for Grid {
    open spec fn obeys_eq_spec() -> bool {
        true
    }

    open spec fn eq_spec(&self, other: &Grid) -> bool {
        self@ == other@
    }
}

impl Eq for Grid {

}

} // verus!
