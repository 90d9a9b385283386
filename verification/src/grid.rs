//! The mathematical model of a board: rows of cells, read by position.
//!
//! A position is a pair `(x, y)`: column `x` of row `y`.

use crate::cell::Cell;
use crate::coordinate::{adjacent, candidates, lemma_candidates_adjacent};
use vstd::prelude::*;
use vstd::set_lib::lemma_len_subset;

verus! {

/// The rows of a board, top to bottom, each a sequence of cells from left to
/// right.
pub type Grid = Seq<Seq<Cell>>;

/// `p` names a cell of `g`.
pub open spec fn holds(g: Grid, p: (int, int)) -> bool {
    0 <= p.1 < g.len() && 0 <= p.0 < g[p.1].len()
}

/// The cell of `g` at `p`.
pub open spec fn at(g: Grid, p: (int, int)) -> Cell {
    g[p.1][p.0]
}

/// `g` has `height` rows of `width` cells each.
pub open spec fn sized(g: Grid, width: nat, height: nat) -> bool {
    g.len() == height && forall|y: int| 0 <= y < g.len() ==> (#[trigger] g[y]).len() == width
}

/// All rows of `g` have the same length.
pub open spec fn rectangular(g: Grid) -> bool {
    forall|y: int| 0 <= y < g.len() ==> (#[trigger] g[y]).len() == g[0].len()
}

/// `g` and `h` have the same rows' lengths.
pub open spec fn same_shape(g: Grid, h: Grid) -> bool {
    g.len() == h.len() && forall|y: int| 0 <= y < g.len() ==> (#[trigger] g[y]).len() == h[y].len()
}

/// There is a cell at `p`, and it is a bomb.
pub open spec fn bomb_at(g: Grid, p: (int, int)) -> bool {
    holds(g, p) && at(g, p).status.is_bomb()
}

/// There is a cell at `p`, and it is open.
pub open spec fn open_at(g: Grid, p: (int, int)) -> bool {
    holds(g, p) && at(g, p).status.is_open()
}

/// There is a cell at `p`, and it is closed.
pub open spec fn closed_at(g: Grid, p: (int, int)) -> bool {
    holds(g, p) && !at(g, p).status.is_open()
}

/// The positions of all cells.
pub open spec fn cells_of(g: Grid) -> Set<(int, int)> {
    Set::new(|p: (int, int)| holds(g, p))
}

/// The positions of the bombs.
pub open spec fn bomb_cells(g: Grid) -> Set<(int, int)> {
    Set::new(|p: (int, int)| bomb_at(g, p))
}

/// The positions of the cells that are still closed.
pub open spec fn closed_cells(g: Grid) -> Set<(int, int)> {
    Set::new(|p: (int, int)| closed_at(g, p))
}

/// The bombs on the cells adjacent to `p`.
pub open spec fn bombs_near(g: Grid, p: (int, int)) -> Set<(int, int)> {
    Set::new(|q: (int, int)| adjacent(p, q) && bomb_at(g, q))
}

/// How many of the cells adjacent to `p` are bombs.
pub open spec fn bombs_around(g: Grid, p: (int, int)) -> nat {
    bombs_near(g, p).len()
}

/// Every cell's count is the number of bombs on the cells adjacent to it.
pub open spec fn counted(g: Grid) -> bool {
    forall|p: (int, int)| #[trigger] holds(g, p) ==> at(g, p).neighboring_bombs == bombs_around(g, p)
}

/// What a board is at every moment of a game: a rectangle of cells whose
/// counts agree with where the bombs are.
pub open spec fn well_formed(g: Grid) -> bool {
    rectangular(g) && counted(g)
}

/// No cell has been opened.
pub open spec fn untouched(g: Grid) -> bool {
    forall|p: (int, int)| #[trigger] holds(g, p) ==> !at(g, p).status.is_open()
}

/// `h` is `g` after some of its cells were opened, and nothing else changed.
pub open spec fn opens(g: Grid, h: Grid) -> bool {
    same_shape(g, h) && forall|p: (int, int)| #[trigger]
        holds(g, p) ==> at(h, p) == at(g, p) || at(h, p) == at(g, p).opened()
}

/// `g` with the cell at `p` replaced by `cell`.
pub open spec fn with_cell(g: Grid, p: (int, int), cell: Cell) -> Grid {
    g.update(p.1, g[p.1].update(p.0, cell))
}

/// The cells of row `y` in columns `0..n`.
spec fn row_cells(y: int, n: nat) -> Set<(int, int)> {
    Set::new(|p: (int, int)| p.1 == y && 0 <= p.0 < n)
}

/// The cells of `g` in rows `0..k`.
spec fn cells_above(g: Grid, k: nat) -> Set<(int, int)> {
    Set::new(|p: (int, int)| holds(g, p) && p.1 < k)
}

proof fn lemma_row_cells_finite(y: int, n: nat)
    ensures
        row_cells(y, n).finite(),
    decreases n,
{
    if n == 0 {
        assert(row_cells(y, n) =~= Set::empty());
    } else {
        lemma_row_cells_finite(y, (n - 1) as nat);
        assert(row_cells(y, n) =~= row_cells(y, (n - 1) as nat).insert((n - 1, y)));
    }
}

proof fn lemma_cells_above_finite(g: Grid, k: nat)
    requires
        k <= g.len(),
    ensures
        cells_above(g, k).finite(),
    decreases k,
{
    if k == 0 {
        assert(cells_above(g, k) =~= Set::empty());
    } else {
        lemma_cells_above_finite(g, (k - 1) as nat);
        lemma_row_cells_finite(k - 1, g[k - 1].len());
        assert(cells_above(g, k) =~= cells_above(g, (k - 1) as nat).union(
            row_cells(k - 1, g[k - 1].len()),
        ));
    }
}

/// A grid has finitely many cells, and so finitely many bombs and closed
/// cells.
pub proof fn lemma_cells_finite(g: Grid)
    ensures
        cells_of(g).finite(),
        bomb_cells(g).finite(),
        closed_cells(g).finite(),
        bomb_cells(g).len() <= cells_of(g).len(),
        closed_cells(g).len() <= cells_of(g).len(),
{
    lemma_cells_above_finite(g, g.len());
    assert(cells_of(g) =~= cells_above(g, g.len()));
    lemma_len_subset(bomb_cells(g), cells_of(g));
    lemma_len_subset(closed_cells(g), cells_of(g));
}

/// At most eight bombs lie around a cell.
pub proof fn lemma_bombs_around_bound(g: Grid, p: (int, int))
    ensures
        bombs_near(g, p).finite(),
        bombs_around(g, p) <= 8,
{
    let around = candidates(p).to_set();
    assert forall|q: (int, int)| bombs_near(g, p).contains(q) implies around.contains(q) by {
        lemma_candidates_adjacent(p, q);
    }
    candidates(p).lemma_cardinality_of_set();
    lemma_len_subset(bombs_near(g, p), around);
}

/// Opening cells moves no bomb and changes no count: a well-formed grid stays
/// well formed, and has as many closed cells as before or fewer.
pub proof fn lemma_opens_preserves(g: Grid, h: Grid)
    requires
        opens(g, h),
    ensures
        forall|p: (int, int)| bomb_at(h, p) == bomb_at(g, p),
        forall|p: (int, int)| open_at(g, p) ==> open_at(h, p),
        bomb_cells(h) == bomb_cells(g),
        well_formed(g) ==> well_formed(h),
        closed_cells(h).subset_of(closed_cells(g)),
        closed_cells(h).len() <= closed_cells(g).len(),
{
    assert forall|p: (int, int)| bomb_at(h, p) == bomb_at(g, p) by {
        if holds(g, p) {
            assert(holds(h, p));
        }
        if holds(h, p) {
            assert(holds(g, p));
        }
    }
    assert forall|p: (int, int)| open_at(g, p) implies open_at(h, p) by {
        assert(holds(g, p));
    }
    assert(bomb_cells(h) =~= bomb_cells(g));
    if well_formed(g) {
        assert forall|y: int| 0 <= y < h.len() implies (#[trigger] h[y]).len() == h[0].len() by {
            assert(g[y].len() == g[0].len());
        }
        assert forall|p: (int, int)| #[trigger] holds(h, p) implies at(h, p).neighboring_bombs
            == bombs_around(h, p) by {
            assert(holds(g, p));
            assert(bombs_near(h, p) =~= bombs_near(g, p));
        }
    }
    assert forall|p: (int, int)| closed_cells(h).contains(p) implies closed_cells(g).contains(
        p,
    ) by {
        assert(holds(g, p));
    }
    lemma_cells_finite(g);
    lemma_len_subset(closed_cells(h), closed_cells(g));
}

/// Opening cells in two steps is opening cells.
pub proof fn lemma_opens_transitive(g: Grid, h: Grid, k: Grid)
    requires
        opens(g, h),
        opens(h, k),
    ensures
        opens(g, k),
{
    assert forall|p: (int, int)| #[trigger] holds(g, p) implies at(k, p) == at(g, p) || at(k, p)
        == at(g, p).opened() by {
        assert(holds(h, p));
    }
}

} // verus!
