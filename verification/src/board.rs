//! The board: generation, reveal and progress.

use crate::cell::{Cell, Status};
use crate::coordinate::{adjacent, in_grid, lemma_neighbors, neighbors, positions, Coordinate};
use crate::flood::{
    cascading, lemma_revealed_alone, lemma_revealed_opens, lemma_spreading_begins,
    lemma_spreading_done, lemma_spreading_step, revealed, spreading,
};
use crate::grid::{
    at, bomb_at, bomb_cells, bombs_around, bombs_near, closed_cells, holds,
    lemma_bombs_around_bound, lemma_opens_preserves, open_at, opens, same_shape, sized, untouched,
    well_formed, with_cell, Grid,
};
use crate::placement::{decoded, lemma_decoded, lemma_planted, marked, once_each, planted};
use crate::random::distinct_below;
use vstd::prelude::*;

verus! {

/// What construction answers when more bombs are asked for than there are
/// cells.
pub const TOO_MANY_BOMBS: &'static str =
    "Cannot generate more unique numbers than the range allows";

/// How the game stands.
#[derive(Clone, Copy, Debug, PartialEq, Eq, Structural)]
pub enum Progress {
    Lost,
    Won,
    Ongoing,
}

/// A bomb has been opened.
pub open spec fn lost(g: Grid) -> bool {
    exists|p: (int, int)| #[trigger] holds(g, p) && at(g, p).status == Status::OpenBomb
}

/// A clear cell is still closed.
pub open spec fn unfinished(g: Grid) -> bool {
    exists|p: (int, int)| #[trigger] holds(g, p) && at(g, p).status == Status::ClosedClear
}

/// How the game stands on `g`: lost once a bomb is open, whatever else is;
/// otherwise going on while a clear cell is closed; otherwise won.
pub open spec fn progress_of(g: Grid) -> Progress {
    if lost(g) {
        Progress::Lost
    } else if unfinished(g) {
        Progress::Ongoing
    } else {
        Progress::Won
    }
}

/// The game is won exactly when every cell that is no bomb is open and no
/// bomb is open.
pub proof fn lemma_won(g: Grid)
    ensures
        progress_of(g) == Progress::Won <==> forall|p: (int, int)| #[trigger]
            holds(g, p) ==> (at(g, p).status.is_bomb() <==> !at(g, p).status.is_open()),
{
    if progress_of(g) != Progress::Won {
        if lost(g) {
            let p = choose|p: (int, int)| #[trigger]
                holds(g, p) && at(g, p).status == Status::OpenBomb;
            assert(at(g, p).status.is_bomb() && at(g, p).status.is_open());
        } else {
            let p = choose|p: (int, int)| #[trigger]
                holds(g, p) && at(g, p).status == Status::ClosedClear;
            assert(!at(g, p).status.is_bomb() && !at(g, p).status.is_open());
        }
    }
}

/// Revealing a bomb opens that cell and no other, and the game is lost,
/// whatever the other cells are.
pub proof fn lemma_reveal_bomb(g: Grid, c: (int, int))
    requires
        bomb_at(g, c),
    ensures
        revealed(g, c) == with_cell(
            g,
            c,
            Cell { status: Status::OpenBomb, neighboring_bombs: at(g, c).neighboring_bombs },
        ),
        progress_of(revealed(g, c)) == Progress::Lost,
{
    lemma_revealed_alone(g, c);
    let r = revealed(g, c);
    assert(holds(r, c) && at(r, c).status == Status::OpenBomb);
}

/// `p` comes before column `x` of row `y` when the cells are read row by row.
pub open spec fn before(p: (int, int), x: int, y: int) -> bool {
    p.1 < y || (p.1 == y && p.0 < x)
}

/// The grid of cells, indexed `cells[row][column]`.
#[derive(Clone, Debug, PartialEq, Eq)]
pub struct Board {
    pub cells: Vec<Vec<Cell>>,
}

impl View for Board {
    type V = Grid;

    open spec fn view(&self) -> Grid {
        Seq::new(self.cells@.len(), |y: int| self.cells@[y]@)
    }
}

impl Board {
    /// The board is a rectangle, and every cell's count is the number of
    /// bombs around it. Construction establishes this; `reveal_at` keeps it.
    pub open spec fn wf(&self) -> bool {
        well_formed(self@)
    }

    /// A board of the given size without bombs, all cells closed.
    fn empty(width: usize, height: usize) -> (board: Board)
        ensures
            sized(board@, width as nat, height as nat),
            board.wf(),
            untouched(board@),
            forall|p: (int, int)| !bomb_at(board@, p),
            bomb_cells(board@).len() == 0,
    {
        let cell: Cell = Cell { status: Status::ClosedClear, neighboring_bombs: 0 };
        let cells: Vec<Vec<Cell>> = vec![vec![cell; width]; height];
        let board = Board { cells };
        proof {
            let g = board@;
            assert forall|p: (int, int)| #[trigger] holds(g, p) implies at(g, p) == cell by {
                assert(g[p.1] == board.cells@[p.1]@);
            }
            assert(bomb_cells(g) =~= Set::<(int, int)>::empty());
            assert forall|p: (int, int)| #[trigger] holds(g, p) implies at(g, p).neighboring_bombs
                == bombs_around(g, p) by {
                assert(bombs_near(g, p) =~= Set::<(int, int)>::empty());
            }
        }
        board
    }

    /// A board of `width` by `height` cells on which `bombs` cells, chosen at
    /// random, hold a bomb, and nothing is open yet. When there are fewer
    /// cells than bombs asked for, no board is made.
    pub fn new(bombs: usize, width: usize, height: usize) -> (r: Result<Board, &'static str>)
        requires
            width * height <= usize::MAX,
        ensures
            bombs > width * height ==> r == Err::<Board, &'static str>(TOO_MANY_BOMBS),
            bombs <= width * height ==> (r matches Ok(board) && sized(
                board@,
                width as nat,
                height as nat,
            ) && board.wf() && untouched(board@) && bomb_cells(board@).len() == bombs),
    {
        let cell_quantity: usize = width * height;
        if bombs > cell_quantity {
            return Err(TOO_MANY_BOMBS);
        }
        let bomb_indices = distinct_below(bombs, cell_quantity);
        Ok(Board::with_bombs(width, height, &bomb_indices))
    }

    /// A board of `width` by `height` cells with a bomb on each cell whose
    /// number is among `indices`, and nothing open. The cells are numbered
    /// row by row: number `i` is column `i mod width` of row `i div width`.
    /// A number that names no cell of the board is passed over, and a number
    /// that comes twice counts once.
    pub fn with_bombs(width: usize, height: usize, indices: &Vec<usize>) -> (board: Board)
        ensures
            sized(board@, width as nat, height as nat),
            board.wf(),
            untouched(board@),
            forall|p: (int, int)|
                bomb_at(board@, p) <==> in_grid(p, width as nat, height as nat) && marked(
                    indices@,
                    width as nat,
                    p,
                ),
            once_each(indices@, width * height) ==> bomb_cells(board@).len() == indices@.len(),
    {
        let mut board = Board::empty(width, height);
        let mut k: usize = 0;
        assert forall|p: (int, int)| !marked(indices@.take(0), width as nat, p) by {}
        while k < indices.len()
            invariant
                k <= indices@.len(),
                sized(board@, width as nat, height as nat),
                board.wf(),
                untouched(board@),
                forall|p: (int, int)|
                    bomb_at(board@, p) <==> in_grid(p, width as nat, height as nat) && marked(
                        indices@.take(k as int),
                        width as nat,
                        p,
                    ),
                once_each(indices@, width * height) ==> bomb_cells(board@).len() == k,
            decreases indices@.len() - k,
        {
            let index = indices[k];
            let ghost g = board@;
            let ghost seen = indices@.take(k as int);
            let ghost more = indices@.take(k + 1);
            let ghost target = decoded(index as int, width as int);
            proof {
                assert(more =~= seen.push(index));
                assert forall|p: (int, int)|
                    marked(more, width as nat, p) <==> marked(seen, width as nat, p) || p
                        == target by {
                    if marked(more, width as nat, p) {
                        let i = choose|i: int|
                            0 <= i < more.len() && decoded(
                                #[trigger] more[i] as int,
                                width as int,
                            ) == p;
                        if i < k {
                            assert(seen[i] == more[i]);
                        }
                    }
                    if marked(seen, width as nat, p) {
                        let i = choose|i: int|
                            0 <= i < seen.len() && decoded(
                                #[trigger] seen[i] as int,
                                width as int,
                            ) == p;
                        assert(more[i] == seen[i]);
                    }
                    if p == target {
                        assert(more[k as int] == index);
                    }
                }
                if width > 0 {
                    lemma_decoded(index as int, index as int, width as nat, height as nat);
                }
            }
            if width > 0 {
                let x = index % width;
                let y = index / width;
                if y < height {
                    let coordinate = Coordinate { x, y };
                    assert(coordinate@ == target);
                    assert(holds(g, target));
                    match board.cells[y][x].status {
                        Status::ClosedBomb => {
                            proof {
                                assert(bomb_at(g, target));
                                if once_each(indices@, width * height) {
                                    let i = choose|i: int|
                                        0 <= i < seen.len() && decoded(
                                            #[trigger] seen[i] as int,
                                            width as int,
                                        ) == target;
                                    lemma_decoded(
                                        seen[i] as int,
                                        index as int,
                                        width as nat,
                                        height as nat,
                                    );
                                    assert(indices@[i] == indices@[k as int]);
                                }
                            }
                        },
                        _ => {
                            assert(!bomb_at(g, target));
                            board.add_bomb(&coordinate);
                            proof {
                                lemma_planted(g, target);
                                assert forall|y: int| 0 <= y < board@.len() implies (
                                #[trigger] board@[y]).len() == width by {
                                    assert(g[y].len() == width);
                                }
                            }
                        },
                    }
                } else {
                    assert(!in_grid(target, width as nat, height as nat));
                }
            }
            proof {
                assert forall|p: (int, int)|
                    bomb_at(board@, p) <==> in_grid(p, width as nat, height as nat) && marked(
                        more,
                        width as nat,
                        p,
                    ) by {
                    assert(bomb_at(g, p) <==> in_grid(p, width as nat, height as nat) && marked(
                        seen,
                        width as nat,
                        p,
                    ));
                }
            }
            k += 1;
        }
        assert(indices@.take(k as int) =~= indices@);
        board
    }

    /// Plants a bomb on the cell at `coordinate`, and counts it on every cell
    /// around.
    fn add_bomb(&mut self, coordinate: &Coordinate)
        requires
            old(self).wf(),
            holds(old(self)@, coordinate@),
            !bomb_at(old(self)@, coordinate@),
        ensures
            final(self)@ == planted(old(self)@, coordinate@),
    {
        let ghost g = self@;
        let ghost c = coordinate@;
        let height = self.cells.len();
        let width = self.cells[coordinate.y].len();
        proof {
            assert(g[c.1] == self.cells@[c.1]@);
            assert forall|p: (int, int)| holds(g, p) <==> in_grid(
                p,
                width as nat,
                height as nat,
            ) by {
                if 0 <= p.1 < g.len() {
                    assert(g[p.1].len() == g[0].len());
                    assert(g[c.1].len() == g[0].len());
                }
            }
            lemma_neighbors(c, width as nat, height as nat);
        }
        self.cells[coordinate.y][coordinate.x].plant_bomb();
        assert(self@ =~~= with_cell(
            g,
            c,
            Cell { status: Status::ClosedBomb, neighboring_bombs: at(g, c).neighboring_bombs },
        ));
        let around = coordinate.adjacents(width, height);
        let ghost near = positions(around@);
        let mut i: usize = 0;
        while i < around.len()
            invariant
                i <= around@.len(),
                well_formed(g),
                holds(g, c),
                near == positions(around@),
                near == neighbors(c, width as nat, height as nat),
                near.no_duplicates(),
                forall|q: (int, int)|
                    near.contains(q) <==> adjacent(c, q) && in_grid(
                        q,
                        width as nat,
                        height as nat,
                    ),
                forall|p: (int, int)| holds(g, p) <==> in_grid(p, width as nat, height as nat),
                same_shape(g, self@),
                forall|p: (int, int)| #[trigger]
                    holds(g, p) ==> at(self@, p).status == (if p == c {
                        Status::ClosedBomb
                    } else {
                        at(g, p).status
                    }) && at(self@, p).neighboring_bombs == at(g, p).neighboring_bombs + (
                    if near.take(i as int).contains(p) {
                        1int
                    } else {
                        0int
                    }),
            decreases around@.len() - i,
        {
            let cord = around[i];
            let ghost cur = self@;
            let ghost q = cord@;
            proof {
                assert(near[i as int] == q);
                assert(near.contains(q));
                assert(holds(g, q));
                assert(holds(cur, q));
                assert(cur[q.1] == self.cells@[q.1]@);
                lemma_bombs_around_bound(g, q);
                let earlier = near.take(i as int);
                if earlier.contains(q) {
                    let j = choose|j: int| 0 <= j < earlier.len() && earlier[j] == q;
                    assert(near[j] == near[i as int]);
                }
            }
            self.cells[cord.y][cord.x].increase_neighboring_bombs();
            proof {
                assert(self@ =~~= with_cell(
                    cur,
                    q,
                    Cell {
                        status: at(cur, q).status,
                        neighboring_bombs: (at(cur, q).neighboring_bombs + 1) as usize,
                    },
                ));
                let earlier = near.take(i as int);
                let later = near.take(i + 1);
                assert(later =~= earlier.push(q));
                assert forall|p: (int, int)| #[trigger] holds(g, p) implies at(self@, p).status
                    == (if p == c {
                    Status::ClosedBomb
                } else {
                    at(g, p).status
                }) && at(self@, p).neighboring_bombs == at(g, p).neighboring_bombs + (
                if later.contains(p) {
                    1int
                } else {
                    0int
                }) by {
                    if p == q {
                        assert(later[i as int] == q);
                    } else {
                        assert(at(self@, p) == at(cur, p));
                        if later.contains(p) {
                            let j = choose|j: int| 0 <= j < later.len() && later[j] == p;
                            assert(earlier[j] == p);
                        }
                        if earlier.contains(p) {
                            let j = choose|j: int| 0 <= j < earlier.len() && earlier[j] == p;
                            assert(later[j] == p);
                        }
                    }
                }
            }
            i += 1;
        }
        proof {
            assert(near.take(i as int) =~= near);
            let done = planted(g, c);
            assert forall|y: int| 0 <= y < done.len() implies #[trigger] self@[y] =~= done[y] by {
                assert(self@[y].len() == g[y].len());
                assert forall|x: int| 0 <= x < done[y].len() implies self@[y][x] == done[y][x] by {
                    let p = (x, y);
                    assert(holds(g, p));
                    assert(at(self@, p) == self@[y][x]);
                    lemma_bombs_around_bound(g, p);
                }
            }
            assert(self@ =~= done);
        }
    }

    /// Opens the cell at `coordinate`. A closed bomb becomes an open bomb; an
    /// open cell stays as it is. A closed clear cell is opened, and where no
    /// bomb is counted around it, the cells around it are revealed in turn,
    /// so that the whole region of zero-count cells that hang together with
    /// it is opened, with the cells that border the region.
    pub fn reveal_at(&mut self, coordinate: &Coordinate)
        requires
            old(self).wf(),
            holds(old(self)@, coordinate@),
        ensures
            final(self)@ == revealed(old(self)@, coordinate@),
            opens(old(self)@, final(self)@),
            final(self).wf(),
        decreases closed_cells(old(self)@).len(),
    {
        let ghost g = self@;
        let ghost c = coordinate@;
        proof {
            assert(g[c.1] == self.cells@[c.1]@);
            lemma_revealed_opens(g, c);
            lemma_opens_preserves(g, revealed(g, c));
        }
        let cell = self.cells[coordinate.y][coordinate.x];
        match cell.status {
            Status::ClosedBomb => {
                self.cells[coordinate.y][coordinate.x].status = Status::OpenBomb;
                proof {
                    assert(self@ =~~= with_cell(g, c, at(g, c).opened()));
                    lemma_revealed_alone(g, c);
                }
            },
            Status::OpenClear | Status::OpenBomb => {
                proof {
                    lemma_revealed_alone(g, c);
                    assert(self@ =~~= with_cell(g, c, at(g, c).opened()));
                }
            },
            Status::ClosedClear => {
                self.cells[coordinate.y][coordinate.x].status = Status::OpenClear;
                assert(self@ =~~= with_cell(g, c, at(g, c).opened()));
                if cell.neighboring_bombs == 0 {
                    let height = self.cells.len();
                    let width = self.cells[coordinate.y].len();
                    proof {
                        assert(self@[c.1] == self.cells@[c.1]@);
                        assert forall|p: (int, int)| holds(g, p) <==> in_grid(
                            p,
                            width as nat,
                            height as nat,
                        ) by {
                            if 0 <= p.1 < g.len() {
                                assert(g[p.1].len() == g[0].len());
                                assert(g[c.1].len() == g[0].len());
                            }
                        }
                        lemma_neighbors(c, width as nat, height as nat);
                        lemma_spreading_begins(g, c);
                        lemma_opens_preserves(g, self@);
                    }
                    let around = coordinate.adjacents(width, height);
                    let ghost near = positions(around@);
                    let mut i: usize = 0;
                    while i < around.len()
                        invariant
                            i <= around@.len(),
                            g == old(self)@,
                            well_formed(g),
                            cascading(g, c),
                            near == positions(around@),
                            forall|q: (int, int)|
                                near.contains(q) <==> adjacent(c, q) && in_grid(
                                    q,
                                    width as nat,
                                    height as nat,
                                ),
                            forall|p: (int, int)|
                                holds(g, p) <==> in_grid(p, width as nat, height as nat),
                            spreading(g, self@, c),
                            self.wf(),
                            closed_cells(self@).len() < closed_cells(g).len(),
                            forall|j: int| 0 <= j < i ==> open_at(self@, #[trigger] near[j]),
                        decreases around@.len() - i,
                    {
                        let ghost cur = self@;
                        let ghost next = around@[i as int]@;
                        proof {
                            assert(near[i as int] == next);
                            assert(near.contains(next));
                            assert(holds(g, next));
                            assert(holds(cur, next));
                        }
                        self.reveal_at(&around[i]);
                        proof {
                            lemma_spreading_step(g, cur, c, next);
                            lemma_opens_preserves(cur, self@);
                            assert forall|j: int| 0 <= j < i + 1 implies open_at(
                                self@,
                                #[trigger] near[j],
                            ) by {
                                if j < i {
                                    assert(open_at(cur, near[j]));
                                }
                            }
                        }
                        i += 1;
                    }
                    proof {
                        assert forall|q: (int, int)| adjacent(c, q) && holds(g, q) implies open_at(
                            self@,
                            q,
                        ) by {
                            assert(near.contains(q));
                            let j = choose|j: int| 0 <= j < near.len() && near[j] == q;
                            assert(open_at(self@, near[j]));
                        }
                        lemma_spreading_done(g, self@, c);
                    }
                } else {
                    proof {
                        lemma_revealed_alone(g, c);
                    }
                }
            },
        }
    }

    /// How the game stands: lost if a bomb is open; otherwise going on if a
    /// clear cell is still closed; otherwise won.
    pub fn progress(&self) -> (r: Progress)
        ensures
            r == progress_of(self@),
    {
        let ghost g = self@;
        let mut progress = Progress::Won;
        let mut y: usize = 0;
        while y < self.cells.len()
            invariant
                g == self@,
                y <= self.cells@.len(),
                forall|p: (int, int)|
                    #[trigger] holds(g, p) && before(p, 0, y as int) ==> at(g, p).status
                        != Status::OpenBomb,
                progress == Progress::Won ==> forall|p: (int, int)|
                    #[trigger] holds(g, p) && before(p, 0, y as int) ==> at(g, p).status
                        != Status::ClosedClear,
                progress == Progress::Ongoing ==> unfinished(g),
                progress == Progress::Won || progress == Progress::Ongoing,
            decreases self.cells@.len() - y,
        {
            let row = &self.cells[y];
            assert(g[y as int] == row@);
            let mut x: usize = 0;
            while x < row.len()
                invariant
                    g == self@,
                    y < self.cells@.len(),
                    g[y as int] == row@,
                    x <= row@.len(),
                    forall|p: (int, int)|
                        #[trigger] holds(g, p) && before(p, x as int, y as int) ==> at(g, p).status
                            != Status::OpenBomb,
                    progress == Progress::Won ==> forall|p: (int, int)|
                        #[trigger] holds(g, p) && before(p, x as int, y as int) ==> at(
                            g,
                            p,
                        ).status != Status::ClosedClear,
                    progress == Progress::Ongoing ==> unfinished(g),
                    progress == Progress::Won || progress == Progress::Ongoing,
                decreases row@.len() - x,
            {
                assert(holds(g, (x as int, y as int)));
                match row[x].status {
                    Status::ClosedClear => {
                        progress = Progress::Ongoing;
                    },
                    Status::ClosedBomb | Status::OpenClear => {},
                    Status::OpenBomb => {
                        return Progress::Lost;
                    },
                }
                x += 1;
            }
            y += 1;
        }
        progress
    }
}

} // verus!
