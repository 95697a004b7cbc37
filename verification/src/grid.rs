//! The mutable grid of cells.  Each cell holds a domain: the tile
//! identifiers still possible at that position.  A cell with one candidate
//! is collapsed; a cell with none is a contradiction.

use vstd::prelude::*;
use crate::tiles::Catalog;
use crate::tiles::ids_of;

verus! {

/// The mathematical value of a grid: its dimensions and, per cell in
/// row-major order, the domain of still-possible tile identifiers.
pub struct GridModel {
    pub width: nat,
    pub height: nat,
    pub cells: Seq<Seq<Seq<char>>>,
}

/// Total number of candidates over a row-major cell sequence.
pub open spec fn count_cells(cs: Seq<Seq<Seq<char>>>) -> nat
    decreases cs.len(),
{
    if cs.len() == 0 {
        0
    } else {
        count_cells(cs.drop_last()) + cs.last().len()
    }
}

impl GridModel {
    /// The cell sequence covers the whole rectangle.
    pub open spec fn dims_ok(self) -> bool {
        self.cells.len() == self.width * self.height
    }

    pub open spec fn in_bounds(self, x: int, y: int) -> bool {
        0 <= x < self.width && 0 <= y < self.height
    }

    /// The row-major position of coordinates `(x, y)`.
    pub open spec fn idx(self, x: int, y: int) -> int {
        y * self.width + x
    }

    /// The domain of the cell at `(x, y)`.
    pub open spec fn at(self, x: int, y: int) -> Seq<Seq<char>> {
        self.cells[self.idx(x, y)]
    }

    /// This grid with the domain at position `k` replaced by `d`.
    pub open spec fn with_cell(self, k: int, d: Seq<Seq<char>>) -> GridModel {
        GridModel { cells: self.cells.update(k, d), ..self }
    }

    /// A domain acceptable under `cat`: duplicate-free, every identifier
    /// known to the catalog.
    pub open spec fn domain_ok(d: Seq<Seq<char>>, cat: Catalog) -> bool {
        &&& d.no_duplicates()
        &&& forall|j: int| 0 <= j < d.len() ==> cat.contains_id(#[trigger] d[j])
    }

    /// Well-formed for `cat`: dimensions consistent and every domain
    /// acceptable.  Holds at initialization and is preserved by every step.
    pub open spec fn wf_for(self, cat: Catalog) -> bool {
        &&& self.dims_ok()
        &&& forall|k: int|
            0 <= k < self.cells.len() ==> GridModel::domain_ok(#[trigger] self.cells[k], cat)
    }

    /// Total number of candidates left over all cells.
    pub open spec fn count_total(self) -> nat {
        count_cells(self.cells)
    }

    /// Every cell is decided (one candidate) or contradictory (none); the
    /// state in which a step reports no progress.
    pub open spec fn settled(self) -> bool {
        forall|k: int| 0 <= k < self.cells.len() ==> #[trigger] self.cells[k].len() <= 1
    }

    /// Some cell's domain is empty: no tile satisfies all constraints there.
    pub open spec fn has_contradiction(self) -> bool {
        exists|k: int| 0 <= k < self.cells.len() && #[trigger] self.cells[k].len() == 0
    }
}

/// Replacing the domain at `k` changes the candidate total by exactly the
/// difference of the two domain sizes.
pub proof fn lemma_count_update(cs: Seq<Seq<Seq<char>>>, k: int, d: Seq<Seq<char>>)
    requires
        0 <= k < cs.len(),
    ensures
        count_cells(cs.update(k, d)) == count_cells(cs) - cs[k].len() + d.len(),
    decreases cs.len(),
{
    let upd = cs.update(k, d);
    if k == cs.len() - 1 {
        assert(upd.drop_last() =~= cs.drop_last());
    } else {
        assert(upd.drop_last() =~= cs.drop_last().update(k, d));
        assert(upd.last() == cs.last());
        lemma_count_update(cs.drop_last(), k, d);
    }
}

/// The candidate total is at least the size of any one domain.
pub proof fn lemma_count_at_least(cs: Seq<Seq<Seq<char>>>, k: int)
    requires
        0 <= k < cs.len(),
    ensures
        count_cells(cs) >= cs[k].len(),
    decreases cs.len(),
{
    if k < cs.len() - 1 {
        lemma_count_at_least(cs.drop_last(), k);
    }
}

/// Cell-wise smaller domains give a smaller candidate total.
pub proof fn lemma_count_le(a: Seq<Seq<Seq<char>>>, b: Seq<Seq<Seq<char>>>)
    requires
        a.len() == b.len(),
        forall|k: int| 0 <= k < a.len() ==> #[trigger] a[k].len() <= b[k].len(),
    ensures
        count_cells(a) <= count_cells(b),
    decreases a.len(),
{
    if a.len() > 0 {
        lemma_count_le(a.drop_last(), b.drop_last());
        assert(a.last().len() <= b[a.len() - 1].len());
    }
}

/// With every domain of size at most `m`, the candidate total is at most
/// `m` per cell.
pub proof fn lemma_count_bounded(cs: Seq<Seq<Seq<char>>>, m: nat)
    requires
        forall|k: int| 0 <= k < cs.len() ==> #[trigger] cs[k].len() <= m,
    ensures
        count_cells(cs) <= cs.len() * m,
    decreases cs.len(),
{
    if cs.len() > 0 {
        lemma_count_bounded(cs.drop_last(), m);
        assert(cs.last().len() <= m);
        assert((cs.len() - 1) * m + m == cs.len() * m) by (nonlinear_arith);
    }
}

/// A rectangular grid of cells.  The solver owns and narrows it in place;
/// renderers read it through [`Grid::cell`].
#[derive(Debug)]
pub struct Grid {
    pub width: usize,
    pub height: usize,
    pub cells: Vec<Vec<String>>,
}

impl View for Grid {
    type V = GridModel;

    open spec fn view(&self) -> GridModel {
        GridModel {
            width: self.width as nat,
            height: self.height as nat,
            cells: self.cells@.map_values(|d: Vec<String>| ids_of(d@)),
        }
    }
}

impl Grid {
    /// The number of cells.
    pub fn len(&self) -> (n: usize)
        ensures
            n == self@.cells.len(),
    {
        self.cells.len()
    }

    /// The domain of the cell at `(x, y)`: the still-possible identifiers,
    /// in their current order.  Read-only; renderers never mutate it.
    pub fn cell(&self, x: usize, y: usize) -> (r: &Vec<String>)
        requires
            self@.dims_ok(),
            self@.in_bounds(x as int, y as int),
        ensures
            ids_of(r@) == self@.at(x as int, y as int),
    {
        let n = self.cells.len();
        proof {
            lemma_grid_index(*self, x as int, y as int);
            assert(y * self.width + x < n);
        }
        &self.cells[y * self.width + x]
    }

    /// How many candidates the cell at `(x, y)` still has.
    pub fn domain_len(&self, x: usize, y: usize) -> (n: usize)
        requires
            self@.dims_ok(),
            self@.in_bounds(x as int, y as int),
        ensures
            n == self@.at(x as int, y as int).len(),
    {
        self.cell(x, y).len()
    }

    /// Replaces the domain at row-major position `k`.
    pub(crate) fn set_cell(&mut self, k: usize, d: Vec<String>)
        requires
            k < old(self)@.cells.len(),
        ensures
            final(self)@ == old(self)@.with_cell(k as int, ids_of(d@)),
    {
        self.cells[k] = d;
        proof {
            assert(self@.cells =~= old(self)@.cells.update(k as int, ids_of(d@)));
        }
    }

    /// True when every cell is decided or empty: stepping such a grid
    /// reports no progress.
    pub fn is_settled(&self) -> (b: bool)
        ensures
            b == self@.settled(),
    {
        let n = self.cells.len();
        for k in 0..n
            invariant
                n == self.cells@.len(),
                n == self@.cells.len(),
                forall|t: int| 0 <= t < k ==> #[trigger] self@.cells[t].len() <= 1,
        {
            proof {
                assert(self@.cells[k as int] == ids_of(self.cells@[k as int]@));
            }
            if self.cells[k].len() > 1 {
                return false;
            }
        }
        true
    }

    /// True when some cell's domain is empty.  Stepping never signals a
    /// contradiction by itself; callers that care check this.
    pub fn has_contradiction(&self) -> (b: bool)
        ensures
            b == self@.has_contradiction(),
    {
        let n = self.cells.len();
        for k in 0..n
            invariant
                n == self.cells@.len(),
                n == self@.cells.len(),
                forall|t: int| 0 <= t < k ==> #[trigger] self@.cells[t].len() != 0,
        {
            proof {
                assert(self@.cells[k as int] == ids_of(self.cells@[k as int]@));
            }
            if self.cells[k].len() == 0 {
                return true;
            }
        }
        false
    }
}

/// The row-major position of in-bounds coordinates is itself in bounds.
pub proof fn lemma_grid_index(g: Grid, x: int, y: int)
    requires
        g@.dims_ok(),
        g@.in_bounds(x, y),
    ensures
        0 <= g@.idx(x, y) < g@.cells.len(),
        g@.at(x, y) == ids_of(g.cells@[g@.idx(x, y)]@),
        g@.idx(x, y) == y * g.width + x,
{
    assert(y * g@.width + x < g@.width * g@.height) by (nonlinear_arith)
        requires
            0 <= x < g@.width,
            0 <= y < g@.height,
    ;
    assert(0 <= y * g@.width + x) by (nonlinear_arith)
        requires
            0 <= x,
            0 <= y,
            g@.width >= 0,
    ;
}

} // verus!
