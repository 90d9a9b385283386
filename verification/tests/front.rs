use minesweeper::cell::{Cell, Status};
use minesweeper::config::Config;
use minesweeper::coordinate::Coordinate;
use minesweeper::front::{fill_color, label, origin, process_events, Click, Input};
use std::ops::ControlFlow;

const CONFIG: Config = Config { width: 3, height: 2, bombs: 1 };

#[test]
fn a_pixel_on_a_cell_clicks_it() {
    assert_eq!(Click::at_pixel(0, 0, &CONFIG), Some(Click { coord: Coordinate { x: 0, y: 0 } }));
    assert_eq!(Click::at_pixel(31, 31, &CONFIG), Some(Click { coord: Coordinate { x: 0, y: 0 } }));
    assert_eq!(Click::at_pixel(36, 0, &CONFIG), Some(Click { coord: Coordinate { x: 1, y: 0 } }));
    assert_eq!(Click::at_pixel(103, 67, &CONFIG), Some(Click { coord: Coordinate { x: 2, y: 1 } }));
}

#[test]
fn a_pixel_in_a_gap_clicks_nothing() {
    assert_eq!(Click::at_pixel(32, 0, &CONFIG), None);
    assert_eq!(Click::at_pixel(35, 10, &CONFIG), None);
    assert_eq!(Click::at_pixel(10, 32, &CONFIG), None);
    assert_eq!(Click::at_pixel(40, 35, &CONFIG), None);
}

#[test]
fn a_pixel_off_the_board_clicks_nothing() {
    assert_eq!(Click::at_pixel(-1, 0, &CONFIG), None);
    assert_eq!(Click::at_pixel(0, -5, &CONFIG), None);
    assert_eq!(Click::at_pixel(108, 0, &CONFIG), None);
    assert_eq!(Click::at_pixel(0, 72, &CONFIG), None);
    assert_eq!(Click::at_pixel(i32::MAX, i32::MAX, &CONFIG), None);
    assert_eq!(Click::at_pixel(i32::MIN, 0, &CONFIG), None);
}

#[test]
fn every_status_has_its_colour() {
    assert_eq!(fill_color(Status::ClosedBomb), (40, 40, 20));
    assert_eq!(fill_color(Status::OpenBomb), (200, 40, 20));
    assert_eq!(fill_color(Status::ClosedClear), (100, 100, 80));
    assert_eq!(fill_color(Status::OpenClear), (160, 160, 80));
}

#[test]
fn only_open_counted_cells_are_labelled() {
    assert_eq!(label(&Cell { status: Status::OpenClear, neighboring_bombs: 3 }), Some(3));
    assert_eq!(label(&Cell { status: Status::OpenClear, neighboring_bombs: 0 }), None);
    assert_eq!(label(&Cell { status: Status::ClosedClear, neighboring_bombs: 3 }), None);
    assert_eq!(label(&Cell { status: Status::OpenBomb, neighboring_bombs: 2 }), None);
    assert_eq!(label(&Cell { status: Status::ClosedBomb, neighboring_bombs: 2 }), None);
}

#[test]
fn cells_are_drawn_a_pitch_apart() {
    assert_eq!(origin(0, 0), (0, 0));
    assert_eq!(origin(1, 2), (36, 72));
    assert_eq!(origin(59_652_323, 0), (2_147_483_628, 0));
}

fn click(x: usize, y: usize) -> Option<Click> {
    Some(Click { coord: Coordinate { x, y } })
}

#[test]
fn the_last_press_on_a_cell_is_the_click() {
    let mut chosen: Option<Click> = None;
    let inputs = vec![
        Input::Other,
        Input::Press { x: 0, y: 0 },
        Input::Press { x: 40, y: 40 },
        Input::Press { x: 33, y: 0 },
        Input::Other,
    ];
    assert_eq!(process_events(&mut chosen, &inputs, &CONFIG), ControlFlow::Continue(()));
    assert_eq!(chosen, click(1, 1));
}

#[test]
fn inputs_that_press_no_cell_leave_the_click() {
    let mut chosen: Option<Click> = click(2, 0);
    let inputs = vec![Input::Other, Input::Press { x: 32, y: 0 }, Input::Press { x: 500, y: 0 }];
    assert_eq!(process_events(&mut chosen, &inputs, &CONFIG), ControlFlow::Continue(()));
    assert_eq!(chosen, click(2, 0));
    let mut none: Option<Click> = None;
    assert_eq!(process_events(&mut none, &vec![], &CONFIG), ControlFlow::Continue(()));
    assert_eq!(none, None);
}

#[test]
fn quitting_ends_the_round_at_once() {
    for stop in [Input::Quit, Input::Escape] {
        let mut chosen: Option<Click> = None;
        let inputs = vec![Input::Press { x: 0, y: 40 }, stop, Input::Press { x: 80, y: 0 }];
        assert_eq!(process_events(&mut chosen, &inputs, &CONFIG), ControlFlow::Break(()));
        assert_eq!(chosen, click(0, 1));
    }
}
