//! The configuration of a game, and the sizes on screen that follow from it.
//!
//! A `Config` is made once, by whoever starts the game, and handed to the
//! functions that need it.

use vstd::prelude::*;

verus! {

/// The side of a cell on screen, in pixels.
pub const CELL_SIZE: usize = 32;

/// The gap between two cells on screen, in pixels.
pub const CELL_SEPARATION: usize = 4;

/// The size of the board and the number of bombs on it.
#[derive(Clone, Copy, Debug, PartialEq, Eq, Structural)]
pub struct Config {
    pub width: usize,
    pub height: usize,
    pub bombs: usize,
}

impl Config {
    /// A board can be built from this configuration: it has at least one
    /// column and one row, the number of its cells fits the machine, and
    /// there are no more bombs than cells.
    pub open spec fn playable(&self) -> bool {
        &&& 1 <= self.width
        &&& 1 <= self.height
        &&& self.width * self.height <= usize::MAX
        &&& self.bombs <= self.width * self.height
    }

    /// Tells whether a board can be built from this configuration.
    pub fn is_playable(&self) -> (r: bool)
        ensures
            r == self.playable(),
    {
        if self.width == 0 || self.height == 0 {
            return false;
        }
        match self.width.checked_mul(self.height) {
            Some(cells) => self.bombs <= cells,
            None => false,
        }
    }
}

/// The number of bombs to place.
pub fn bombs(config: &Config) -> (r: usize)
    ensures
        r == config.bombs,
{
    config.bombs
}

/// The side of a cell on screen.
pub fn cell_size_usize() -> (r: usize)
    ensures
        r == CELL_SIZE,
{
    CELL_SIZE
}

/// The side of a cell on screen.
pub fn cell_size_u32() -> (r: u32)
    ensures
        r == CELL_SIZE,
{
    cell_size_usize() as u32
}

/// The side of a cell on screen.
pub fn cell_size_i32() -> (r: i32)
    ensures
        r == CELL_SIZE,
{
    cell_size_usize() as i32
}

/// The distance on screen from one cell's edge to the same edge of the next.
pub fn cell_size_plus_separation_usize() -> (r: usize)
    ensures
        r == CELL_SIZE + CELL_SEPARATION,
{
    CELL_SIZE + CELL_SEPARATION
}

/// The distance on screen from one cell's edge to the same edge of the next.
pub fn cell_size_plus_separation_i32() -> (r: i32)
    ensures
        r == CELL_SIZE + CELL_SEPARATION,
{
    cell_size_plus_separation_usize() as i32
}

/// The number of columns.
pub fn board_width_usize(config: &Config) -> (r: usize)
    ensures
        r == config.width,
{
    config.width
}

/// The number of rows.
pub fn board_height_usize(config: &Config) -> (r: usize)
    ensures
        r == config.height,
{
    config.height
}

/// `value` as a signed number: itself where it fits, and wrapped round into
/// the negative numbers where it does not, as the cast does.
pub open spec fn wrapped(value: int) -> int {
    if value <= isize::MAX {
        value
    } else {
        value - (usize::MAX + 1)
    }
}

/// Casts to `isize`, wrapping round.
fn to_isize(value: usize) -> (r: isize)
    ensures
        r == wrapped(value as int),
{
    if value <= isize::MAX as usize {
        value as isize
    } else {
        let above: usize = value - isize::MAX as usize - 1;
        (above as isize) + isize::MIN
    }
}

/// The number of columns as a signed number. A width beyond `isize::MAX`
/// wraps round.
pub fn board_width_isize(config: &Config) -> (r: isize)
    ensures
        r == wrapped(config.width as int),
{
    to_isize(board_width_usize(config))
}

/// The number of rows as a signed number. A height beyond `isize::MAX` wraps
/// round.
pub fn board_height_isize(config: &Config) -> (r: isize)
    ensures
        r == wrapped(config.height as int),
{
    to_isize(board_height_usize(config))
}

/// The extent on screen of `count` cells in a row with the gaps between
/// them.
pub open spec fn extent(count: int) -> int {
    (CELL_SIZE + CELL_SEPARATION) * count - CELL_SEPARATION
}

/// The extent on screen of `count` cells with the gaps between them.
fn span(count: usize) -> (r: usize)
    requires
        1 <= count,
        (CELL_SIZE + CELL_SEPARATION) * count <= usize::MAX,
    ensures
        r == extent(count as int),
{
    let pitch = cell_size_plus_separation_usize();
    assert(pitch * count == 36 * count);
    pitch * count - CELL_SEPARATION
}

/// Casts to `u32`, keeping the low 32 bits.
fn to_u32(value: usize) -> (r: u32)
    ensures
        r == (value as int) % 0x1_0000_0000,
{
    let wide: u64 = value as u64;
    let low: u64 = wide % 0x1_0000_0000;
    low as u32
}

/// The width of the window that shows the whole board: the cells of a row
/// and the gaps between them, cut to the low 32 bits where that is too much
/// for a `u32`.
pub fn window_width_u32(config: &Config) -> (r: u32)
    requires
        1 <= config.width,
        (CELL_SIZE + CELL_SEPARATION) * config.width <= usize::MAX,
    ensures
        r == extent(config.width as int) % 0x1_0000_0000,
{
    to_u32(span(config.width))
}

/// The height of the window that shows the whole board: the cells of a
/// column and the gaps between them, cut to the low 32 bits where that is
/// too much for a `u32`.
pub fn window_height_u32(config: &Config) -> (r: u32)
    requires
        1 <= config.height,
        (CELL_SIZE + CELL_SEPARATION) * config.height <= usize::MAX,
    ensures
        r == extent(config.height as int) % 0x1_0000_0000,
{
    to_u32(span(config.height))
}

} // verus!
