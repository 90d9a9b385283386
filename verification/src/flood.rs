//! What a reveal opens.
//!
//! Opening a closed clear cell whose count is zero opens the cells around it,
//! and so on: the reveal spreads through the closed zero-count cells that
//! hang together, and stops on the cells that border them. This module says
//! which cells that is, and proves the facts by which the board's `reveal_at`
//! is shown to open exactly those.

use crate::cell::{Cell, Status};
use crate::coordinate::adjacent;
use crate::grid::{
    at, bomb_at, bombs_near, closed_at, closed_cells, holds, lemma_bombs_around_bound,
    lemma_cells_finite, lemma_opens_preserves, lemma_opens_transitive, open_at, opens, same_shape,
    untouched, well_formed, with_cell, Grid,
};
use vstd::prelude::*;

verus! {

/// A closed clear cell with no bomb counted around it: a reveal that reaches
/// it goes on to the cells around it.
pub open spec fn cascading(g: Grid, p: (int, int)) -> bool {
    holds(g, p) && at(g, p).status == Status::ClosedClear && at(g, p).neighboring_bombs == 0
}

/// `path` is a chain of cascading cells, each adjacent to the next.
pub open spec fn is_cascade(g: Grid, path: Seq<(int, int)>) -> bool {
    &&& path.len() > 0
    &&& forall|i: int| 0 <= i < path.len() ==> cascading(g, #[trigger] path[i])
    &&& forall|i: int, j: int|
        0 <= i && j == i + 1 && j < path.len() ==> adjacent(#[trigger] path[i], #[trigger] path[j])
}

/// A chain of cascading cells leads from `start` to `end`: both belong to the
/// same connected region of closed zero-count cells.
pub open spec fn cascades(g: Grid, start: (int, int), end: (int, int)) -> bool {
    exists|path: Seq<(int, int)>|
        #[trigger] is_cascade(g, path) && path[0] == start && path.last() == end
}

/// Revealing `start` opens `p`: `p` is closed, and it is `start` itself or
/// adjacent to a cell of the cascading region around `start`.
pub open spec fn reveals(g: Grid, start: (int, int), p: (int, int)) -> bool {
    closed_at(g, p) && (p == start || exists|q: (int, int)| #[trigger]
        cascades(g, start, q) && adjacent(q, p))
}

/// The grid after revealing `start`: the cells that the reveal reaches are
/// opened, and all others are as they were.
pub open spec fn revealed(g: Grid, start: (int, int)) -> Grid {
    Seq::new(
        g.len(),
        |y: int|
            Seq::new(
                g[y].len(),
                |x: int|
                    if reveals(g, start, (x, y)) {
                        g[y][x].opened()
                    } else {
                        g[y][x]
                    },
            ),
    )
}

/// While the cells around `start` are being revealed one after another: `cur`
/// is `g` with some of the cells opened that revealing `start` opens, `start`
/// among them, and each cascading cell but `start` that was opened has all
/// its neighbours open already.
pub(crate) open spec fn spreading(g: Grid, cur: Grid, start: (int, int)) -> bool {
    &&& opens(g, cur)
    &&& open_at(cur, start)
    &&& forall|p: (int, int)| #[trigger] open_at(cur, p) ==> open_at(g, p) || reveals(g, start, p)
    &&& forall|d: (int, int), q: (int, int)|
        #![trigger open_at(cur, d), adjacent(d, q)]
        cascading(g, d) && d != start && open_at(cur, d) && adjacent(d, q) && holds(g, q)
            ==> open_at(cur, q)
}

/// A reveal changes nothing but the openness of cells.
pub proof fn lemma_revealed_opens(g: Grid, start: (int, int))
    ensures
        opens(g, revealed(g, start)),
        forall|p: (int, int)|
            #![trigger open_at(revealed(g, start), p)]
            open_at(revealed(g, start), p) <==> open_at(g, p) || reveals(g, start, p),
{
    let h = revealed(g, start);
    assert forall|p: (int, int)| #[trigger] holds(g, p) implies at(h, p) == at(g, p) || at(h, p)
        == at(g, p).opened() by {}
    assert forall|p: (int, int)|
        #![trigger open_at(h, p)]
        open_at(h, p) <==> open_at(g, p) || reveals(g, start, p) by {
        if holds(g, p) {
            assert(holds(h, p));
        }
    }
}

/// A cell that does not cascade starts no chain: revealing it opens it, if it
/// is closed, and nothing else.
pub proof fn lemma_reveals_alone(g: Grid, start: (int, int))
    requires
        !cascading(g, start),
    ensures
        forall|p: (int, int)| reveals(g, start, p) <==> p == start && closed_at(g, start),
{
    assert forall|p: (int, int)| reveals(g, start, p) implies p == start by {
        if p != start {
            let q = choose|q: (int, int)| #[trigger] cascades(g, start, q) && adjacent(q, p);
            let path = choose|path: Seq<(int, int)>|
                #[trigger] is_cascade(g, path) && path[0] == start && path.last() == q;
            assert(cascading(g, path[0]));
        }
    }
}

/// A cascading cell is the one-cell chain from itself to itself.
pub(crate) proof fn lemma_cascades_itself(g: Grid, start: (int, int))
    requires
        cascading(g, start),
    ensures
        cascades(g, start, start),
{
    let path = seq![start];
    assert(is_cascade(g, path));
    assert(path[0] == start && path.last() == start);
}

/// A cascading cell that the reveal opens belongs to the region, and the
/// reveal opens the closed cells around it as well.
pub(crate) proof fn lemma_reveals_spreads(g: Grid, start: (int, int), d: (int, int))
    requires
        reveals(g, start, d),
        cascading(g, d),
    ensures
        cascades(g, start, d),
        forall|q: (int, int)| adjacent(d, q) && closed_at(g, q) ==> reveals(g, start, q),
{
    if d == start {
        lemma_cascades_itself(g, start);
    } else {
        let e = choose|e: (int, int)| #[trigger] cascades(g, start, e) && adjacent(e, d);
        let path = choose|path: Seq<(int, int)>|
            #[trigger] is_cascade(g, path) && path[0] == start && path.last() == e;
        let longer = path.push(d);
        assert forall|i: int| 0 <= i < longer.len() implies cascading(g, #[trigger] longer[i]) by {
            if i < path.len() {
                assert(longer[i] == path[i]);
            }
        }
        assert forall|i: int, j: int| 0 <= i && j == i + 1 && j < longer.len() implies adjacent(
            #[trigger] longer[i],
            #[trigger] longer[j],
        ) by {
            if j < path.len() {
                assert(longer[i] == path[i] && longer[j] == path[j]);
            } else {
                assert(longer[i] == path.last());
            }
        }
        assert(is_cascade(g, longer));
        assert(longer[0] == start && longer.last() == d);
    }
}

/// What a reveal from a neighbour of `start` opens later, the reveal from
/// `start` opens: a chain found after some cells were opened, from a cell
/// adjacent to the cascading `start`, is a chain from `start` once `start`
/// is put in front.
pub(crate) proof fn lemma_reveals_from_neighbor(
    g: Grid,
    cur: Grid,
    start: (int, int),
    next: (int, int),
    p: (int, int),
)
    requires
        opens(g, cur),
        cascading(g, start),
        adjacent(start, next),
        reveals(cur, next, p),
    ensures
        reveals(g, start, p),
{
    assert(holds(g, p));
    lemma_cascades_itself(g, start);
    if p != start {
        if p == next {
            assert(cascades(g, start, start) && adjacent(start, p));
        } else {
            let q = choose|q: (int, int)| #[trigger] cascades(cur, next, q) && adjacent(q, p);
            let path = choose|path: Seq<(int, int)>|
                #[trigger] is_cascade(cur, path) && path[0] == next && path.last() == q;
            let longer = seq![start] + path;
            assert forall|i: int| 0 <= i < longer.len() implies cascading(
                g,
                #[trigger] longer[i],
            ) by {
                if i > 0 {
                    assert(longer[i] == path[i - 1]);
                    assert(cascading(cur, path[i - 1]));
                    assert(holds(g, path[i - 1]));
                }
            }
            assert forall|i: int, j: int|
                0 <= i && j == i + 1 && j < longer.len() implies adjacent(
                #[trigger] longer[i],
                #[trigger] longer[j],
            ) by {
                if i > 0 {
                    assert(longer[i] == path[i - 1] && longer[j] == path[j - 1]);
                } else {
                    assert(longer[j] == path[0]);
                }
            }
            assert(is_cascade(g, longer));
            assert(longer[0] == start && longer.last() == q);
            assert(cascades(g, start, q) && adjacent(q, p));
        }
    }
}

/// Along a chain from an open cell, in a grid where every opened cascading
/// cell has its neighbours open, every cell is open.
proof fn lemma_chain_open(g: Grid, end: Grid, path: Seq<(int, int)>, k: int)
    requires
        opens(g, end),
        is_cascade(g, path),
        open_at(end, path[0]),
        forall|d: (int, int), q: (int, int)|
            #![trigger open_at(end, d), adjacent(d, q)]
            cascading(g, d) && open_at(end, d) && adjacent(d, q) && holds(g, q) ==> open_at(
                end,
                q,
            ),
        0 <= k < path.len(),
    ensures
        open_at(end, path[k]),
    decreases k,
{
    if k > 0 {
        lemma_chain_open(g, end, path, k - 1);
        assert(cascading(g, path[k - 1]));
        assert(cascading(g, path[k]));
        assert(adjacent(path[k - 1], path[k]));
    }
}

/// In a grid where `start` and everything around each opened cascading cell is
/// open, all that revealing `start` opens is open.
pub(crate) proof fn lemma_reveals_all_open(g: Grid, end: Grid, start: (int, int), p: (int, int))
    requires
        opens(g, end),
        open_at(end, start),
        forall|d: (int, int), q: (int, int)|
            #![trigger open_at(end, d), adjacent(d, q)]
            cascading(g, d) && open_at(end, d) && adjacent(d, q) && holds(g, q) ==> open_at(
                end,
                q,
            ),
        reveals(g, start, p),
    ensures
        open_at(end, p),
{
    if p != start {
        let q = choose|q: (int, int)| #[trigger] cascades(g, start, q) && adjacent(q, p);
        let path = choose|path: Seq<(int, int)>|
            #[trigger] is_cascade(g, path) && path[0] == start && path.last() == q;
        lemma_chain_open(g, end, path, path.len() - 1);
        assert(cascading(g, q));
    }
}

/// A grid that opens cells of `g`, and in which exactly the cells are open
/// that were open or that revealing `start` opens, is `g` revealed at `start`.
pub(crate) proof fn lemma_is_revealed(g: Grid, end: Grid, start: (int, int))
    requires
        opens(g, end),
        forall|p: (int, int)|
            #![trigger open_at(end, p)]
            holds(g, p) ==> (open_at(end, p) <==> open_at(g, p) || reveals(g, start, p)),
    ensures
        end == revealed(g, start),
{
    let r = revealed(g, start);
    assert forall|y: int| 0 <= y < end.len() implies #[trigger] end[y] =~= r[y] by {
        assert(g[y].len() == end[y].len());
        assert forall|x: int| 0 <= x < end[y].len() implies end[y][x] == r[y][x] by {
            let p = (x, y);
            assert(holds(g, p));
            assert(at(end, p) == end[y][x]);
            assert(open_at(end, p) <==> open_at(g, p) || reveals(g, start, p));
        }
    }
    assert(end =~= r);
}

/// One step of the spreading: revealing `next`, a cell adjacent to the
/// cascading `start`, in a grid where the reveal of `start` is under way,
/// leaves it under way, with `next` open.
pub(crate) proof fn lemma_spreading_step(g: Grid, cur: Grid, start: (int, int), next: (int, int))
    requires
        cascading(g, start),
        spreading(g, cur, start),
        adjacent(start, next),
        holds(g, next),
    ensures
        spreading(g, revealed(cur, next), start),
        opens(cur, revealed(cur, next)),
        open_at(revealed(cur, next), next),
{
    let new = revealed(cur, next);
    lemma_revealed_opens(cur, next);
    lemma_opens_transitive(g, cur, new);
    lemma_opens_preserves(cur, new);
    assert(holds(cur, next));
    assert(open_at(new, next));
    assert forall|p: (int, int)| #[trigger] open_at(new, p) implies open_at(g, p) || reveals(
        g,
        start,
        p,
    ) by {
        if open_at(cur, p) {
        } else {
            assert(reveals(cur, next, p));
            lemma_reveals_from_neighbor(g, cur, start, next, p);
        }
    }
    assert forall|d: (int, int), q: (int, int)|
        #![trigger open_at(new, d), adjacent(d, q)]
        cascading(g, d) && d != start && open_at(new, d) && adjacent(d, q) && holds(
            g,
            q,
        ) implies open_at(new, q) by {
        assert(holds(cur, q));
        if open_at(cur, d) {
            assert(open_at(cur, q));
        } else {
            assert(holds(cur, d));
            assert(reveals(cur, next, d));
            assert(cascading(cur, d));
            lemma_reveals_spreads(cur, next, d);
            if closed_at(cur, q) {
                assert(reveals(cur, next, q));
            }
        }
    }
}

/// When all cells around the cascading `start` have been revealed in turn,
/// the grid is `g` revealed at `start`.
pub(crate) proof fn lemma_spreading_done(g: Grid, end: Grid, start: (int, int))
    requires
        cascading(g, start),
        spreading(g, end, start),
        forall|q: (int, int)| adjacent(start, q) && holds(g, q) ==> open_at(end, q),
    ensures
        end == revealed(g, start),
{
    assert forall|p: (int, int)|
        #![trigger open_at(end, p)]
        holds(g, p) implies (open_at(end, p) <==> open_at(g, p) || reveals(g, start, p)) by {
        if open_at(g, p) {
            assert(holds(g, p));
        }
        if reveals(g, start, p) {
            lemma_reveals_all_open(g, end, start, p);
        }
    }
    lemma_is_revealed(g, end, start);
}

/// Opening the closed cell at `start`, which does not cascade, is revealing
/// `start`.
pub(crate) proof fn lemma_revealed_alone(g: Grid, start: (int, int))
    requires
        holds(g, start),
        !cascading(g, start),
    ensures
        revealed(g, start) == with_cell(g, start, at(g, start).opened()),
{
    lemma_reveals_alone(g, start);
    let r = revealed(g, start);
    let w = with_cell(g, start, at(g, start).opened());
    assert forall|y: int| 0 <= y < r.len() implies #[trigger] r[y] =~= w[y] by {
        assert forall|x: int| 0 <= x < r[y].len() implies r[y][x] == w[y][x] by {
            let p = (x, y);
            assert(reveals(g, start, p) <==> p == start && closed_at(g, start));
        }
    }
    assert(r =~= w);
}

/// Opening the cascading cell at `start` begins the spreading, and leaves
/// fewer closed cells than there were.
pub(crate) proof fn lemma_spreading_begins(g: Grid, start: (int, int))
    requires
        cascading(g, start),
    ensures
        spreading(g, with_cell(g, start, at(g, start).opened()), start),
        closed_cells(with_cell(g, start, at(g, start).opened())).len()
            < closed_cells(g).len(),
{
    let cur = with_cell(g, start, at(g, start).opened());
    assert(same_shape(g, cur));
    assert forall|p: (int, int)| #[trigger] holds(g, p) implies at(cur, p) == at(g, p) || at(
        cur,
        p,
    ) == at(g, p).opened() by {}
    assert(open_at(cur, start));
    assert forall|p: (int, int)| #[trigger] open_at(cur, p) implies open_at(g, p) || reveals(
        g,
        start,
        p,
    ) by {
        assert(holds(g, p));
    }
    assert forall|d: (int, int), q: (int, int)|
        #![trigger open_at(cur, d), adjacent(d, q)]
        cascading(g, d) && d != start && open_at(cur, d) && adjacent(d, q) && holds(
            g,
            q,
        ) implies open_at(cur, q) by {
        assert(at(cur, d) == at(g, d));
    }
    lemma_cells_finite(g);
    assert(closed_cells(cur) =~= closed_cells(g).remove(start)) by {
        assert forall|p: (int, int)| closed_cells(cur).contains(p) <==> closed_cells(g).remove(
            start,
        ).contains(p) by {
            if holds(g, p) {
                assert(holds(cur, p));
            }
            if holds(cur, p) {
                assert(holds(g, p));
            }
        }
    }
    assert(closed_cells(g).contains(start));
}

/// Revealing a cell a second time changes nothing: the grid after two reveals
/// of the same cell is the grid after one.
pub proof fn lemma_reveal_idempotent(g: Grid, start: (int, int))
    ensures
        revealed(revealed(g, start), start) == revealed(g, start),
{
    let r = revealed(g, start);
    lemma_revealed_opens(g, start);
    if holds(g, start) {
        assert(holds(r, start));
        assert(open_at(r, start));
    }
    lemma_reveals_alone(r, start);
    let again = revealed(r, start);
    assert forall|y: int| 0 <= y < r.len() implies #[trigger] again[y] =~= r[y] by {
        assert forall|x: int| 0 <= x < r[y].len() implies again[y][x] == r[y][x] by {
            assert(reveals(r, start, (x, y)) <==> (x, y) == start && closed_at(r, start));
        }
    }
    assert(again =~= r);
}

/// Flood fill. On a well-formed grid, revealing a closed clear cell around
/// which no bomb lies opens every cell of the region of closed zero-count
/// cells that hangs together with it, and every closed cell that borders the
/// region. It opens nothing beyond, opens no bomb, and changes no cell in
/// any other way.
pub proof fn lemma_flood_fill(g: Grid, start: (int, int))
    requires
        well_formed(g),
        cascading(g, start),
    ensures
        forall|p: (int, int)| cascades(g, start, p) ==> open_at(revealed(g, start), p),
        forall|q: (int, int), p: (int, int)|
            cascades(g, start, q) && adjacent(q, p) && holds(g, p) ==> open_at(
                revealed(g, start),
                p,
            ),
        forall|p: (int, int)|
            holds(g, p) && at(revealed(g, start), p) != at(g, p) ==> {
                &&& closed_at(g, p)
                &&& !bomb_at(g, p)
                &&& at(revealed(g, start), p) == Cell {
                    status: Status::OpenClear,
                    neighboring_bombs: at(g, p).neighboring_bombs,
                }
                &&& cascades(g, start, p) || exists|q: (int, int)| #[trigger]
                    cascades(g, start, q) && adjacent(q, p)
            },
{
    let r = revealed(g, start);
    lemma_revealed_opens(g, start);
    lemma_cascades_itself(g, start);
    assert forall|q: (int, int), p: (int, int)|
        cascades(g, start, q) && adjacent(q, p) && holds(g, p) implies open_at(r, p) by {
        assert(holds(r, p));
        if closed_at(g, p) {
            assert(reveals(g, start, p));
        }
    }
    assert forall|p: (int, int)| cascades(g, start, p) implies open_at(r, p) by {
        let path = choose|path: Seq<(int, int)>|
            #[trigger] is_cascade(g, path) && path[0] == start && path.last() == p;
        assert(cascading(g, path[path.len() - 1]));
        if path.len() == 1 {
            assert(reveals(g, start, p));
        } else {
            let shorter = path.drop_last();
            let q = shorter.last();
            assert forall|i: int| 0 <= i < shorter.len() implies cascading(
                g,
                #[trigger] shorter[i],
            ) by {
                assert(shorter[i] == path[i]);
            }
            assert forall|i: int, j: int|
                0 <= i && j == i + 1 && j < shorter.len() implies adjacent(
                #[trigger] shorter[i],
                #[trigger] shorter[j],
            ) by {
                assert(shorter[i] == path[i] && shorter[j] == path[j]);
            }
            assert(is_cascade(g, shorter));
            assert(shorter[0] == start && shorter.last() == q);
            assert(cascades(g, start, q));
            assert(q == path[path.len() - 2]);
            assert(adjacent(path[path.len() - 2], path[path.len() - 1]));
            assert(reveals(g, start, p));
        }
        assert(holds(r, p));
    }
    assert forall|p: (int, int)| holds(g, p) && at(r, p) != at(g, p) implies {
        &&& closed_at(g, p)
        &&& !bomb_at(g, p)
        &&& at(r, p) == Cell {
            status: Status::OpenClear,
            neighboring_bombs: at(g, p).neighboring_bombs,
        }
        &&& cascades(g, start, p) || exists|q: (int, int)| #[trigger]
            cascades(g, start, q) && adjacent(q, p)
    } by {
        assert(reveals(g, start, p));
        if p != start {
            let q = choose|q: (int, int)| #[trigger] cascades(g, start, q) && adjacent(q, p);
            let path = choose|path: Seq<(int, int)>|
                #[trigger] is_cascade(g, path) && path[0] == start && path.last() == q;
            assert(cascading(g, path[path.len() - 1]));
            if bomb_at(g, p) {
                lemma_bombs_around_bound(g, q);
                assert(bombs_near(g, q).contains(p));
                assert(holds(g, q));
            }
        }
    }
}

/// A clear cell around which no bomb is counted, open or closed.
pub open spec fn blank(g: Grid, p: (int, int)) -> bool {
    holds(g, p) && !at(g, p).status.is_bomb() && at(g, p).neighboring_bombs == 0
}

/// Every open blank cell has all the cells around it open. This holds of a
/// board on which nothing is open, and reveals keep it: it holds throughout
/// a game in which cells are opened by reveals only.
pub open spec fn settled(g: Grid) -> bool {
    forall|d: (int, int), q: (int, int)|
        #![trigger open_at(g, d), adjacent(d, q)]
        blank(g, d) && open_at(g, d) && adjacent(d, q) && holds(g, q) ==> open_at(g, q)
}

/// `path` is a chain of blank cells, each adjacent to the next.
pub open spec fn is_blank_chain(g: Grid, path: Seq<(int, int)>) -> bool {
    &&& path.len() > 0
    &&& forall|i: int| 0 <= i < path.len() ==> blank(g, #[trigger] path[i])
    &&& forall|i: int, j: int|
        0 <= i && j == i + 1 && j < path.len() ==> adjacent(#[trigger] path[i], #[trigger] path[j])
}

/// `start` and `end` lie in the same connected region of blank cells.
pub open spec fn blank_linked(g: Grid, start: (int, int), end: (int, int)) -> bool {
    exists|path: Seq<(int, int)>|
        #[trigger] is_blank_chain(g, path) && path[0] == start && path.last() == end
}

/// A board on which nothing is open is settled.
pub proof fn lemma_untouched_settled(g: Grid)
    requires
        untouched(g),
    ensures
        settled(g),
{
}

/// A reveal keeps a board settled.
pub proof fn lemma_revealed_settled(g: Grid, start: (int, int))
    requires
        settled(g),
    ensures
        settled(revealed(g, start)),
{
    let r = revealed(g, start);
    lemma_revealed_opens(g, start);
    lemma_opens_preserves(g, r);
    assert forall|d: (int, int), q: (int, int)|
        #![trigger open_at(r, d), adjacent(d, q)]
        blank(r, d) && open_at(r, d) && adjacent(d, q) && holds(r, q) implies open_at(r, q) by {
        assert(holds(g, d) && holds(g, q));
        assert(blank(g, d));
        if open_at(g, d) {
            assert(open_at(g, q));
        } else {
            assert(cascading(g, d));
            lemma_reveals_spreads(g, start, d);
        }
    }
}

/// Along a chain of blank cells from an open cell, on a settled board, every
/// cell is open.
proof fn lemma_blank_chain_open(g: Grid, path: Seq<(int, int)>, k: int)
    requires
        settled(g),
        is_blank_chain(g, path),
        open_at(g, path[0]),
        0 <= k < path.len(),
    ensures
        open_at(g, path[k]),
    decreases k,
{
    if k > 0 {
        lemma_blank_chain_open(g, path, k - 1);
        assert(blank(g, path[k - 1]));
        assert(blank(g, path[k]));
        assert(adjacent(path[k - 1], path[k]));
    }
}

/// Flood fill in play. On a well-formed, settled board, revealing a closed
/// blank cell leaves open the whole connected region of blank cells that it
/// belongs to, and every cell that borders the region; and every cell that
/// the reveal changes is a clear cell of the region or of its border.
pub proof fn lemma_flood_fill_in_play(g: Grid, start: (int, int))
    requires
        well_formed(g),
        settled(g),
        cascading(g, start),
    ensures
        forall|p: (int, int)| blank_linked(g, start, p) ==> open_at(revealed(g, start), p),
        forall|q: (int, int), p: (int, int)|
            blank_linked(g, start, q) && adjacent(q, p) && holds(g, p) ==> open_at(
                revealed(g, start),
                p,
            ),
        forall|p: (int, int)|
            holds(g, p) && at(revealed(g, start), p) != at(g, p) ==> {
                &&& !bomb_at(g, p)
                &&& blank_linked(g, start, p) || exists|q: (int, int)| #[trigger]
                    blank_linked(g, start, q) && adjacent(q, p)
            },
{
    let r = revealed(g, start);
    lemma_revealed_opens(g, start);
    lemma_opens_preserves(g, r);
    lemma_revealed_settled(g, start);
    assert(holds(r, start));
    assert forall|p: (int, int)| blank_linked(g, start, p) implies open_at(r, p) by {
        let path = choose|path: Seq<(int, int)>|
            #[trigger] is_blank_chain(g, path) && path[0] == start && path.last() == p;
        assert forall|i: int| 0 <= i < path.len() implies blank(r, #[trigger] path[i]) by {
            assert(blank(g, path[i]));
            assert(bomb_at(r, path[i]) == bomb_at(g, path[i]));
        }
        assert(is_blank_chain(r, path));
        lemma_blank_chain_open(r, path, path.len() - 1);
    }
    assert forall|q: (int, int), p: (int, int)|
        blank_linked(g, start, q) && adjacent(q, p) && holds(g, p) implies open_at(r, p) by {
        assert(open_at(r, q));
        let path = choose|path: Seq<(int, int)>|
            #[trigger] is_blank_chain(g, path) && path[0] == start && path.last() == q;
        assert(blank(g, path[path.len() - 1]));
        assert(bomb_at(r, q) == bomb_at(g, q));
        assert(blank(r, q));
        assert(holds(r, p));
    }
    lemma_flood_fill(g, start);
    assert forall|p: (int, int)| holds(g, p) && at(r, p) != at(g, p) implies {
        &&& !bomb_at(g, p)
        &&& blank_linked(g, start, p) || exists|q: (int, int)| #[trigger]
            blank_linked(g, start, q) && adjacent(q, p)
    } by {
        assert forall|q: (int, int)| cascades(g, start, q) implies blank_linked(g, start, q) by {
            let path = choose|path: Seq<(int, int)>|
                #[trigger] is_cascade(g, path) && path[0] == start && path.last() == q;
            assert forall|i: int| 0 <= i < path.len() implies blank(g, #[trigger] path[i]) by {
                assert(cascading(g, path[i]));
            }
            assert(is_blank_chain(g, path));
        }
        if !cascades(g, start, p) {
            let q = choose|q: (int, int)| #[trigger] cascades(g, start, q) && adjacent(q, p);
            assert(blank_linked(g, start, q) && adjacent(q, p));
        }
    }
}

} // verus!
