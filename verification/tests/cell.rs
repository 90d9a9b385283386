use minesweeper::cell::{Cell, Status};

#[test]
fn plant_bomb_overwrites_the_status() {
    for status in [Status::ClosedBomb, Status::ClosedClear, Status::OpenClear, Status::OpenBomb] {
        let mut cell = Cell { status, neighboring_bombs: 5 };
        cell.plant_bomb();
        assert_eq!(cell, Cell { status: Status::ClosedBomb, neighboring_bombs: 5 });
    }
}

#[test]
fn increase_neighboring_bombs_adds_one() {
    let mut cell = Cell { status: Status::ClosedClear, neighboring_bombs: 0 };
    cell.increase_neighboring_bombs();
    assert_eq!(cell, Cell { status: Status::ClosedClear, neighboring_bombs: 1 });
    cell.increase_neighboring_bombs();
    cell.increase_neighboring_bombs();
    assert_eq!(cell.neighboring_bombs, 3);
    assert_eq!(cell.status, Status::ClosedClear);
}
