//! Positions on the grid and the cells around them.
//!
//! Specifications speak of a position as a pair `(x, y)` of mathematical
//! integers, so that the places just outside the grid can be named too.

use vstd::prelude::*;

verus! {

/// The eight directions in which a cell has neighbours, in the order in
/// which they are enumerated: row above, same row, row below, each from left
/// to right.
pub const DELTAS: [(isize, isize); 8] = [
    (-1, -1),
    (0, -1),
    (1, -1),
    (-1, 0),
    (1, 0),
    (-1, 1),
    (0, 1),
    (1, 1),
];

/// `p` lies on a grid of the given width and height.
pub open spec fn in_grid(p: (int, int), width: nat, height: nat) -> bool {
    0 <= p.0 < width && 0 <= p.1 < height
}

/// `p` and `q` are different positions that touch, by a side or by a corner.
pub open spec fn adjacent(p: (int, int), q: (int, int)) -> bool {
    p != q && -1 <= q.0 - p.0 <= 1 && -1 <= q.1 - p.1 <= 1
}

/// The eight positions around `p`, on the grid or not, in enumeration order.
pub open spec fn candidates(p: (int, int)) -> Seq<(int, int)> {
    Seq::new(8, |k: int| (p.0 + DELTAS[k].0, p.1 + DELTAS[k].1))
}

/// The positions around `p` that lie on the grid, in enumeration order.
pub open spec fn neighbors(p: (int, int), width: nat, height: nat) -> Seq<(int, int)> {
    candidates(p).filter(|q: (int, int)| in_grid(q, width, height))
}

/// The positions that a sequence of coordinates stands for.
pub open spec fn positions(coordinates: Seq<Coordinate>) -> Seq<(int, int)> {
    coordinates.map_values(|c: Coordinate| c@)
}

/// A position on the grid: column `x`, row `y`.
#[derive(Clone, Copy, Debug, PartialEq, Eq, Structural)]
pub struct Coordinate {
    pub x: usize,
    pub y: usize,
}

impl View for Coordinate {
    type V = (int, int);

    open spec fn view(&self) -> (int, int) {
        (self.x as int, self.y as int)
    }
}

/// `value + delta`, if that lies in `0..limit`.
fn shifted(value: usize, delta: isize, limit: usize) -> (r: Option<usize>)
    requires
        -1 <= delta <= 1,
    ensures
        r == (if 0 <= value + delta < limit {
            Some((value + delta) as usize)
        } else {
            None
        }),
{
    if delta < 0 {
        if 1 <= value && value - 1 < limit {
            Some(value - 1)
        } else {
            None
        }
    } else if delta == 0 {
        if value < limit {
            Some(value)
        } else {
            None
        }
    } else {
        if value < limit && value + 1 < limit {
            Some(value + 1)
        } else {
            None
        }
    }
}

impl Coordinate {
    /// The coordinate of `(x, y)` on a grid of the given size, or `None` where
    /// `(x, y)` lies outside it. Stepping off the grid is an ordinary outcome
    /// here, not an error.
    pub fn new(x: isize, y: isize, width: usize, height: usize) -> (r: Option<Coordinate>)
        ensures
            r == (if in_grid((x as int, y as int), width as nat, height as nat) {
                Some(Coordinate { x: x as usize, y: y as usize })
            } else {
                None
            }),
    {
        match (usize::try_from(x), usize::try_from(y)) {
            (Ok(xu), Ok(yu)) => {
                if xu < width && yu < height {
                    Some(Coordinate { x: xu, y: yu })
                } else {
                    None
                }
            },
            _ => None,
        }
    }

    /// The cells around this one that lie on a grid of the given size: each of
    /// the eight directions is tried in turn, and the positions off the grid
    /// are left out.
    pub fn adjacents(&self, width: usize, height: usize) -> (r: Vec<Coordinate>)
        ensures
            positions(r@) == neighbors(self@, width as nat, height as nat),
    {
        let ghost on_grid = |q: (int, int)| in_grid(q, width as nat, height as nat);
        let mut found: Vec<Coordinate> = Vec::new();
        let mut k: usize = 0;
        assert(candidates(self@).take(0) =~= Seq::<(int, int)>::empty());
        assert(positions(found@) =~= Seq::<(int, int)>::empty());
        proof {
            reveal(Seq::filter);
        }
        while k < 8
            invariant
                k <= 8,
                on_grid == (|q: (int, int)| in_grid(q, width as nat, height as nat)),
                positions(found@) == candidates(self@).take(k as int).filter(on_grid),
            decreases 8 - k,
        {
            let (dx, dy) = DELTAS[k];
            let ghost tried = candidates(self@).take(k as int);
            let ghost q = candidates(self@)[k as int];
            proof {
                assert(candidates(self@).take(k + 1) =~= tried.push(q));
                tried.lemma_filter_push(q, on_grid);
            }
            match (shifted(self.x, dx, width), shifted(self.y, dy, height)) {
                (Some(x), Some(y)) => {
                    let ghost before = found@;
                    found.push(Coordinate { x, y });
                    assert(positions(found@) =~= positions(before).push(q));
                },
                _ => {},
            }
            k += 1;
        }
        assert(candidates(self@).take(8) =~= candidates(self@));
        found
    }
}

/// The eight candidates around `p` are exactly the positions adjacent to it.
pub proof fn lemma_candidates_adjacent(p: (int, int), q: (int, int))
    ensures
        candidates(p).contains(q) <==> adjacent(p, q),
{
    let c = candidates(p);
    if adjacent(p, q) {
        let dx = q.0 - p.0;
        let dy = q.1 - p.1;
        let k = (dy + 1) * 3 + (dx + 1);
        let j = if k < 4 { k } else { k - 1 };
        assert(c[j] == q);
    }
}

/// No position occurs twice among the eight candidates.
pub proof fn lemma_candidates_distinct(p: (int, int))
    ensures
        candidates(p).no_duplicates(),
{
    let c = candidates(p);
    assert forall|i: int, j: int| 0 <= i < c.len() && 0 <= j < c.len() && i != j implies c[i]
        != c[j] by {
        assert(DELTAS[i] != DELTAS[j]);
    }
}

/// Filtering keeps a sequence free of duplicates.
proof fn lemma_filter_distinct<A>(s: Seq<A>, pred: spec_fn(A) -> bool)
    requires
        s.no_duplicates(),
    ensures
        s.filter(pred).no_duplicates(),
    decreases s.len(),
{
    reveal(Seq::filter);
    if s.len() > 0 {
        let rest = s.drop_last();
        lemma_filter_distinct(rest, pred);
        if pred(s.last()) {
            if rest.filter(pred).contains(s.last()) {
                rest.lemma_filter_contains_rev(pred, s.last());
                let i = choose|i: int| 0 <= i < rest.len() && rest[i] == s.last();
                assert(s[i] == s[s.len() - 1]);
            }
        }
    }
}

/// The neighbours of `p` are exactly the positions on the grid that are
/// adjacent to it, each listed once.
pub proof fn lemma_neighbors(p: (int, int), width: nat, height: nat)
    ensures
        neighbors(p, width, height).no_duplicates(),
        forall|q: (int, int)|
            neighbors(p, width, height).contains(q) <==> adjacent(p, q) && in_grid(
                q,
                width,
                height,
            ),
{
    let on_grid = |q: (int, int)| in_grid(q, width, height);
    let c = candidates(p);
    let n = neighbors(p, width, height);
    lemma_candidates_distinct(p);
    lemma_filter_distinct(c, on_grid);
    assert forall|q: (int, int)| n.contains(q) <==> adjacent(p, q) && in_grid(
        q,
        width,
        height,
    ) by {
        lemma_candidates_adjacent(p, q);
        if n.contains(q) {
            c.lemma_filter_contains_rev(on_grid, q);
            let i = choose|i: int| 0 <= i < n.len() && n[i] == q;
            c.lemma_filter_pred(on_grid, i);
        }
        if adjacent(p, q) && in_grid(q, width, height) {
            let i = choose|i: int| 0 <= i < c.len() && c[i] == q;
            c.lemma_filter_contains(on_grid, i);
        }
    }
}

/// How many of the first `k` candidates around `p` lie on the grid.
spec fn kept(p: (int, int), width: nat, height: nat, k: int) -> nat {
    candidates(p).take(k).filter(|q: (int, int)| in_grid(q, width, height)).len()
}

/// Looking at one more candidate counts it if and only if it lies on the grid.
proof fn lemma_kept_step(p: (int, int), width: nat, height: nat, k: int)
    requires
        0 <= k < 8,
    ensures
        kept(p, width, height, k + 1) == kept(p, width, height, k) + (if in_grid(
            candidates(p)[k],
            width,
            height,
        ) {
            1nat
        } else {
            0nat
        }),
{
    let on_grid = |q: (int, int)| in_grid(q, width, height);
    let tried = candidates(p).take(k);
    assert(candidates(p).take(k + 1) =~= tried.push(candidates(p)[k]));
    tried.lemma_filter_push(candidates(p)[k], on_grid);
}

/// On a grid at least two cells wide and two cells high, a corner cell has
/// three neighbours, any other cell on the border has five, and a cell off
/// the border has eight.
pub proof fn lemma_neighbor_count(p: (int, int), width: nat, height: nat)
    requires
        in_grid(p, width, height),
        width >= 2,
        height >= 2,
    ensures
        neighbors(p, width, height).len() == ({
            let on_side = p.0 == 0 || p.0 == width - 1;
            let on_end = p.1 == 0 || p.1 == height - 1;
            if on_side && on_end {
                3nat
            } else if on_side || on_end {
                5nat
            } else {
                8nat
            }
        }),
{
    reveal(Seq::filter);
    assert(candidates(p).take(0) =~= Seq::<(int, int)>::empty());
    assert(kept(p, width, height, 0) == 0);
    lemma_kept_step(p, width, height, 0);
    lemma_kept_step(p, width, height, 1);
    lemma_kept_step(p, width, height, 2);
    lemma_kept_step(p, width, height, 3);
    lemma_kept_step(p, width, height, 4);
    lemma_kept_step(p, width, height, 5);
    lemma_kept_step(p, width, height, 6);
    lemma_kept_step(p, width, height, 7);
    assert(candidates(p).take(8) =~= candidates(p));
}

} // verus!
