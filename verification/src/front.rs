//! What the screen and the pointer have to do with the board: which cell a
//! pixel belongs to, where a cell is drawn, in which colour, and with which
//! number on it. Drawing and polling themselves are left to the program that
//! uses the library.

use crate::cell::{Cell, Status};
use crate::config::{
    cell_size_i32, cell_size_plus_separation_i32, Config, CELL_SEPARATION, CELL_SIZE,
};
use crate::coordinate::{in_grid, Coordinate};
use std::ops::ControlFlow;
use vstd::prelude::*;

verus! {

/// A click on a cell of the board.
#[derive(Clone, Copy, Debug, PartialEq, Eq, Structural)]
pub struct Click {
    pub coord: Coordinate,
}

/// The position of the cell that the pixel `(x, y)` of the window belongs
/// to: none where the pixel lies left of or above the window, in a gap
/// between cells, or beyond the last column or row.
pub open spec fn cell_under(x: int, y: int, width: nat, height: nat) -> Option<(int, int)> {
    let pitch = CELL_SIZE + CELL_SEPARATION;
    if 0 <= x && 0 <= y && x % pitch < CELL_SIZE && y % pitch < CELL_SIZE && in_grid(
        (x / pitch, y / pitch),
        width,
        height,
    ) {
        Some((x / pitch, y / pitch))
    } else {
        None
    }
}

impl Click {
    /// The click that a press of the pointer at pixel `(x, y)` makes on a
    /// board of the configured size, if the pixel belongs to a cell.
    pub fn at_pixel(x: i32, y: i32, config: &Config) -> (r: Option<Click>)
        ensures
            match cell_under(x as int, y as int, config.width as nat, config.height as nat) {
                Some(p) => r == Some(Click { coord: Coordinate { x: p.0 as usize, y: p.1 as usize } }),
                None => r is None,
            },
    {
        if x < 0 || y < 0 {
            return None;
        }
        let row = y / cell_size_plus_separation_i32();
        let column = x / cell_size_plus_separation_i32();
        let x_within_cell = x % cell_size_plus_separation_i32();
        let y_within_cell = y % cell_size_plus_separation_i32();
        if x_within_cell < cell_size_i32() && y_within_cell < cell_size_i32() {
            match Coordinate::new(column as isize, row as isize, config.width, config.height) {
                Some(coord) => Some(Click { coord }),
                None => None,
            }
        } else {
            None
        }
    }
}

/// What the window reports, as far as the game cares.
#[derive(Clone, Copy, Debug, PartialEq, Eq, Structural)]
pub enum Input {
    /// The window was closed.
    Quit,
    /// The escape key went down.
    Escape,
    /// A button of the pointer went down at pixel `(x, y)`.
    Press { x: i32, y: i32 },
    /// Anything else.
    Other,
}

/// The input ends the game.
pub open spec fn stops(input: Input) -> bool {
    input == Input::Quit || input == Input::Escape
}

/// The click that stands after `input`: the cell under a press, and the click
/// that stood before on any other input and on a press that hits no cell.
pub open spec fn click_after(click: Option<Click>, input: Input, config: Config) -> Option<Click> {
    match input {
        Input::Press { x, y } => match cell_under(
            x as int,
            y as int,
            config.width as nat,
            config.height as nat,
        ) {
            Some(p) => Some(Click { coord: Coordinate { x: p.0 as usize, y: p.1 as usize } }),
            None => click,
        },
        _ => click,
    }
}

/// The click that stands after all of `inputs`, taken in turn.
pub open spec fn click_after_all(
    click: Option<Click>,
    inputs: Seq<Input>,
    config: Config,
) -> Option<Click>
    decreases inputs.len(),
{
    if inputs.len() == 0 {
        click
    } else {
        click_after(click_after_all(click, inputs.drop_last(), config), inputs.last(), config)
    }
}

/// Takes the inputs of one round in turn, up to the first that ends the
/// game. Each press on a cell before that replaces the click. The answer is
/// `Break` where an input ended the game, and `Continue` where none did.
pub fn process_events(click: &mut Option<Click>, inputs: &Vec<Input>, config: &Config) -> (flow:
    ControlFlow<(), ()>)
    ensures
        match flow {
            ControlFlow::Break(_) => exists|k: int|
                0 <= k < inputs@.len() && stops(#[trigger] inputs@[k]) && (forall|j: int|
                    0 <= j < k ==> !stops(inputs@[j])) && *final(click) == click_after_all(
                    *old(click),
                    inputs@.take(k),
                    *config,
                ),
            ControlFlow::Continue(_) => (forall|j: int|
                0 <= j < inputs@.len() ==> !stops(inputs@[j])) && *final(click)
                == click_after_all(*old(click), inputs@, *config),
        },
{
    let mut k: usize = 0;
    assert(inputs@.take(0) =~= Seq::<Input>::empty());
    while k < inputs.len()
        invariant
            k <= inputs@.len(),
            forall|j: int| 0 <= j < k ==> !stops(inputs@[j]),
            *click == click_after_all(*old(click), inputs@.take(k as int), *config),
        decreases inputs@.len() - k,
    {
        let input = inputs[k];
        proof {
            let more = inputs@.take(k + 1);
            assert(more.drop_last() =~= inputs@.take(k as int));
            assert(more.last() == input);
        }
        match input {
            Input::Quit | Input::Escape => {
                return ControlFlow::Break(());
            },
            Input::Press { x, y } => {
                match Click::at_pixel(x, y, config) {
                    Some(hit) => {
                        *click = Some(hit);
                    },
                    None => {},
                }
            },
            Input::Other => {},
        }
        k += 1;
    }
    assert(inputs@.take(k as int) =~= inputs@);
    ControlFlow::Continue(())
}

/// The colour, as red, green and blue, in which a cell of the given status
/// is filled.
pub fn fill_color(status: Status) -> (rgb: (u8, u8, u8))
    ensures
        rgb == match status {
            Status::ClosedBomb => (40u8, 40u8, 20u8),
            Status::OpenBomb => (200u8, 40u8, 20u8),
            Status::ClosedClear => (100u8, 100u8, 80u8),
            Status::OpenClear => (160u8, 160u8, 80u8),
        },
{
    match status {
        Status::ClosedBomb => (40, 40, 20),
        Status::OpenBomb => (200, 40, 20),
        Status::ClosedClear => (100, 100, 80),
        Status::OpenClear => (160, 160, 80),
    }
}

/// The number written on a cell: the count of the bombs around it, on an
/// open clear cell around which there is a bomb, and nothing on any other.
pub fn label(cell: &Cell) -> (r: Option<usize>)
    ensures
        r == (if cell.neighboring_bombs != 0 && cell.status == Status::OpenClear {
            Some(cell.neighboring_bombs)
        } else {
            None
        }),
{
    if cell.neighboring_bombs != 0 && cell.status == Status::OpenClear {
        Some(cell.neighboring_bombs)
    } else {
        None
    }
}

/// The pixel at which the cell in column `column` of row `row` begins.
pub fn origin(column: usize, row: usize) -> (r: (i32, i32))
    requires
        (CELL_SIZE + CELL_SEPARATION) * column <= i32::MAX,
        (CELL_SIZE + CELL_SEPARATION) * row <= i32::MAX,
    ensures
        r.0 == (CELL_SIZE + CELL_SEPARATION) * column,
        r.1 == (CELL_SIZE + CELL_SEPARATION) * row,
{
    let pitch = cell_size_plus_separation_i32();
    assert(pitch * column == 36 * column && pitch * row == 36 * row);
    let x: i32 = pitch * (column as i32);
    let y: i32 = pitch * (row as i32);
    (x, y)
}

} // verus!
