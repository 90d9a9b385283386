//! Where the bombs go: how a cell's number names its position, and what
//! planting one bomb does to the grid.

use crate::cell::{Cell, Status};
use crate::coordinate::{adjacent, in_grid};
use crate::grid::{
    at, bomb_at, bomb_cells, bombs_around, bombs_near, holds, lemma_bombs_around_bound,
    lemma_cells_finite, same_shape, untouched, well_formed, Grid,
};
use vstd::prelude::*;

verus! {

/// The position of the cell numbered `index`, where the cells of a grid
/// `width` wide are numbered row by row, from left to right.
pub open spec fn decoded(index: int, width: int) -> (int, int) {
    (index % width, index / width)
}

/// One of `indices` is the number of the cell at `p`.
pub open spec fn marked(indices: Seq<usize>, width: nat, p: (int, int)) -> bool {
    exists|i: int| 0 <= i < indices.len() && decoded(#[trigger] indices[i] as int, width as int) == p
}

/// The numbers of `indices` are all different and all below `cells`.
pub open spec fn once_each(indices: Seq<usize>, cells: int) -> bool {
    indices.no_duplicates() && forall|i: int| 0 <= i < indices.len() ==> indices[i] < cells
}

/// The grid `g` with a bomb planted at `c`: the cell at `c` is a closed bomb,
/// and every cell adjacent to `c` counts one bomb more.
pub open spec fn planted(g: Grid, c: (int, int)) -> Grid {
    Seq::new(
        g.len(),
        |y: int|
            Seq::new(
                g[y].len(),
                |x: int|
                    Cell {
                        status: if (x, y) == c {
                            Status::ClosedBomb
                        } else {
                            g[y][x].status
                        },
                        neighboring_bombs: if adjacent(c, (x, y)) {
                            (g[y][x].neighboring_bombs + 1) as usize
                        } else {
                            g[y][x].neighboring_bombs
                        },
                    },
            ),
    )
}

/// Planting a bomb on a cell that has none keeps the grid well formed, and
/// adds that one position to the bombs.
pub proof fn lemma_planted(g: Grid, c: (int, int))
    requires
        well_formed(g),
        holds(g, c),
        !bomb_at(g, c),
    ensures
        well_formed(planted(g, c)),
        same_shape(g, planted(g, c)),
        bomb_cells(planted(g, c)) == bomb_cells(g).insert(c),
        bomb_cells(planted(g, c)).len() == bomb_cells(g).len() + 1,
        untouched(g) ==> untouched(planted(g, c)),
        forall|p: (int, int)| bomb_at(planted(g, c), p) <==> bomb_at(g, p) || p == c,
{
    let h = planted(g, c);
    assert forall|p: (int, int)| bomb_at(h, p) <==> bomb_at(g, p) || p == c by {
        if holds(g, p) {
            assert(holds(h, p));
        }
    }
    assert(bomb_cells(h) =~= bomb_cells(g).insert(c));
    lemma_cells_finite(g);
    assert forall|y: int| 0 <= y < h.len() implies (#[trigger] h[y]).len() == h[0].len() by {
        assert(g[y].len() == g[0].len());
    }
    assert forall|p: (int, int)| #[trigger] holds(h, p) implies at(h, p).neighboring_bombs
        == bombs_around(h, p) by {
        assert(holds(g, p));
        lemma_bombs_around_bound(g, p);
        if adjacent(c, p) {
            assert(bombs_near(h, p) =~= bombs_near(g, p).insert(c));
        } else {
            assert(bombs_near(h, p) =~= bombs_near(g, p));
        }
    }
    if untouched(g) {
        assert forall|p: (int, int)| #[trigger] holds(h, p) implies !at(h, p).status.is_open() by {
            assert(holds(g, p));
        }
    }
}

/// On a grid `width` wide, the cells' numbers name different positions, and a
/// number below `width * height` names a position on the grid.
pub proof fn lemma_decoded(i: int, j: int, width: nat, height: nat)
    requires
        width > 0,
        0 <= i,
        0 <= j,
    ensures
        decoded(i, width as int) == decoded(j, width as int) ==> i == j,
        i < width * height <==> in_grid(decoded(i, width as int), width, height),
{
    let w = width as int;
    let h = height as int;
    vstd::arithmetic::div_mod::lemma_fundamental_div_mod(i, w);
    vstd::arithmetic::div_mod::lemma_fundamental_div_mod(j, w);
    vstd::arithmetic::div_mod::lemma_mod_bound(i, w);
    vstd::arithmetic::div_mod::lemma_div_pos_is_pos(i, w);
    let y = i / w;
    let x = i % w;
    assert(i == w * y + x);
    if y < h {
        assert(w * y + x < w * h) by (nonlinear_arith)
            requires
                0 <= x < w,
                0 <= y < h,
        ;
    } else {
        assert(w * y + x >= w * h) by (nonlinear_arith)
            requires
                0 <= x < w,
                y >= h,
                h >= 0,
        ;
    }
}

} // verus!
