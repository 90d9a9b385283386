//! A single slot of the grid.

use vstd::prelude::*;

verus! {

/// Whether a cell has been opened, crossed with whether it hides a bomb.
#[derive(Clone, Copy, Debug, PartialEq, Eq, Structural)]
pub enum Status {
    ClosedBomb,
    ClosedClear,
    OpenClear,
    OpenBomb,
}

impl Status {
    /// The cell hides (or has shown) a bomb.
    pub open spec fn is_bomb(self) -> bool {
        self == Status::ClosedBomb || self == Status::OpenBomb
    }

    /// The cell has been opened.
    pub open spec fn is_open(self) -> bool {
        self == Status::OpenClear || self == Status::OpenBomb
    }

    /// The status after opening: the bomb stays a bomb, a clear cell stays clear.
    pub open spec fn opened(self) -> Status {
        if self.is_bomb() {
            Status::OpenBomb
        } else {
            Status::OpenClear
        }
    }
}

/// A cell: its status and the number of bombs on the cells around it.
#[derive(Clone, Copy, Debug, PartialEq, Eq, Structural)]
pub struct Cell {
    pub status: Status,
    pub neighboring_bombs: usize,
}

impl Cell {
    /// The same cell, opened.
    pub open spec fn opened(self) -> Cell {
        Cell { status: self.status.opened(), neighboring_bombs: self.neighboring_bombs }
    }

    /// Counts one more bomb among the neighbours.
    pub fn increase_neighboring_bombs(&mut self)
        requires
            old(self).neighboring_bombs < usize::MAX,
        ensures
            final(self).neighboring_bombs == old(self).neighboring_bombs + 1,
            final(self).status == old(self).status,
    {
        self.neighboring_bombs += 1;
    }

    /// Puts a bomb on the cell: whatever the status was, it is now closed-and-bomb.
    pub fn plant_bomb(&mut self)
        ensures
            final(self).status == Status::ClosedBomb,
            final(self).neighboring_bombs == old(self).neighboring_bombs,
    {
        self.status = Status::ClosedBomb;
    }
}

} // verus!
