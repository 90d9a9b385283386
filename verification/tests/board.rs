use minesweeper::board::{Board, Progress, TOO_MANY_BOMBS};
use minesweeper::cell::{Cell, Status};
use minesweeper::coordinate::Coordinate;

fn statuses(board: &Board) -> Vec<Vec<Status>> {
    board.cells.iter().map(|row| row.iter().map(|cell| cell.status).collect()).collect()
}

fn counts(board: &Board) -> Vec<Vec<usize>> {
    board.cells.iter().map(|row| row.iter().map(|cell| cell.neighboring_bombs).collect()).collect()
}

fn is_bomb(status: Status) -> bool {
    status == Status::ClosedBomb || status == Status::OpenBomb
}

fn bombs_on(board: &Board) -> usize {
    board.cells.iter().flatten().filter(|cell| is_bomb(cell.status)).count()
}

fn bombs_around(board: &Board, x: usize, y: usize) -> usize {
    let height: usize = board.cells.len();
    let width: usize = board.cells[0].len();
    let mut found: usize = 0;
    for ny in y.saturating_sub(1)..=(y + 1).min(height - 1) {
        for nx in x.saturating_sub(1)..=(x + 1).min(width - 1) {
            if (nx, ny) != (x, y) && is_bomb(board.cells[ny][nx].status) {
                found += 1;
            }
        }
    }
    found
}

#[test]
fn new_places_the_requested_number_of_bombs() {
    for bombs in [0usize, 1, 10, 63, 64] {
        let board = Board::new(bombs, 8, 8).unwrap();
        assert_eq!(board.cells.len(), 8);
        assert!(board.cells.iter().all(|row| row.len() == 8));
        assert_eq!(bombs_on(&board), bombs);
    }
}

#[test]
fn new_counts_the_bombs_around_every_cell() {
    let board = Board::new(12, 9, 7).unwrap();
    for y in 0..7usize {
        for x in 0..9usize {
            assert_eq!(board.cells[y][x].neighboring_bombs, bombs_around(&board, x, y));
        }
    }
}

#[test]
fn new_leaves_every_cell_closed() {
    let board = Board::new(5, 4, 3).unwrap();
    for row in &board.cells {
        for cell in row {
            assert!(cell.status == Status::ClosedClear || cell.status == Status::ClosedBomb);
        }
    }
}

#[test]
fn new_fills_the_whole_board_with_bombs() {
    let board = Board::new(4, 2, 2).unwrap();
    assert_eq!(statuses(&board), vec![vec![Status::ClosedBomb; 2]; 2]);
    assert_eq!(counts(&board), vec![vec![3usize; 2]; 2]);
}

#[test]
fn new_rejects_one_bomb_too_many() {
    let result = Board::new(3 * 2 + 1, 3, 2);
    assert_eq!(result, Err("Cannot generate more unique numbers than the range allows"));
    assert_eq!(result.unwrap_err(), TOO_MANY_BOMBS);
}

#[test]
fn new_accepts_as_many_bombs_as_cells() {
    assert!(Board::new(6, 3, 2).is_ok());
}

#[test]
fn new_on_no_cells_makes_an_empty_board() {
    let board = Board::new(0, 0, 0).unwrap();
    assert!(board.cells.is_empty());
    assert_eq!(board.progress(), Progress::Won);
    assert!(Board::new(1, 0, 0).is_err());
    assert!(Board::new(1, 5, 0).is_err());
    let flat = Board::new(0, 0, 3).unwrap();
    assert_eq!(flat.cells.len(), 3);
    assert!(flat.cells.iter().all(|row| row.is_empty()));
}

#[test]
fn with_bombs_decodes_indices_row_by_row() {
    let board = Board::with_bombs(3, 2, &vec![1, 5]);
    assert_eq!(
        statuses(&board),
        vec![
            vec![Status::ClosedClear, Status::ClosedBomb, Status::ClosedClear],
            vec![Status::ClosedClear, Status::ClosedClear, Status::ClosedBomb],
        ]
    );
    assert_eq!(counts(&board), vec![vec![1usize, 1, 2], vec![1, 2, 1]]);
}

#[test]
fn with_bombs_passes_over_repeats_and_strangers() {
    let board = Board::with_bombs(3, 2, &vec![1, 6, 1, 5, 100, 5]);
    assert_eq!(board, Board::with_bombs(3, 2, &vec![5, 1]));
    assert_eq!(bombs_on(&board), 2);
    let none = Board::with_bombs(0, 4, &vec![0, 1, 2]);
    assert_eq!(none.cells, vec![Vec::<Cell>::new(); 4]);
}

#[test]
fn with_bombs_counts_up_to_eight() {
    let board = Board::with_bombs(3, 3, &vec![0, 1, 2, 3, 5, 6, 7, 8]);
    assert_eq!(board.cells[1][1], Cell { status: Status::ClosedClear, neighboring_bombs: 8 });
    assert_eq!(board.cells[0][0], Cell { status: Status::ClosedBomb, neighboring_bombs: 2 });
    assert_eq!(board.cells[0][1], Cell { status: Status::ClosedBomb, neighboring_bombs: 4 });
}

#[test]
fn reveal_without_bombs_opens_the_whole_board() {
    let mut board = Board::new(0, 3, 3).unwrap();
    board.reveal_at(&Coordinate { x: 0, y: 0 });
    assert_eq!(statuses(&board), vec![vec![Status::OpenClear; 3]; 3]);
    assert_eq!(board.progress(), Progress::Won);
}

#[test]
fn reveal_next_to_a_bomb_opens_one_cell() {
    let mut board = Board::with_bombs(2, 1, &vec![0]);
    assert_eq!(board.cells[0][1].neighboring_bombs, 1);
    board.reveal_at(&Coordinate { x: 1, y: 0 });
    assert_eq!(statuses(&board), vec![vec![Status::ClosedBomb, Status::OpenClear]]);
    assert_eq!(counts(&board), vec![vec![0usize, 1]]);
    // the one clear cell is open and the bomb is closed: nothing is left to open
    assert_eq!(board.progress(), Progress::Won);
}

#[test]
fn reveal_next_to_a_bomb_leaves_the_game_going() {
    let mut board = Board::with_bombs(3, 1, &vec![0]);
    board.reveal_at(&Coordinate { x: 1, y: 0 });
    assert_eq!(
        statuses(&board),
        vec![vec![Status::ClosedBomb, Status::OpenClear, Status::ClosedClear]]
    );
    assert_eq!(board.progress(), Progress::Ongoing);
}

#[test]
fn reveal_of_a_bomb_loses_the_game() {
    let mut board = Board::with_bombs(3, 3, &vec![4]);
    let before = board.clone();
    board.reveal_at(&Coordinate { x: 1, y: 1 });
    assert_eq!(board.cells[1][1], Cell { status: Status::OpenBomb, neighboring_bombs: 0 });
    for y in 0..3usize {
        for x in 0..3usize {
            if (x, y) != (1, 1) {
                assert_eq!(board.cells[y][x], before.cells[y][x]);
            }
        }
    }
    assert_eq!(board.progress(), Progress::Lost);
}

#[test]
fn reveal_twice_is_reveal_once() {
    for index in 0..16usize {
        let mut once = Board::with_bombs(4, 4, &vec![5, 15]);
        let coordinate = Coordinate { x: index % 4, y: index / 4 };
        once.reveal_at(&coordinate);
        let mut twice = once.clone();
        twice.reveal_at(&coordinate);
        assert_eq!(once, twice);
    }
}

#[test]
fn reveal_of_an_open_cell_changes_nothing() {
    let mut board = Board::with_bombs(3, 1, &vec![0]);
    board.reveal_at(&Coordinate { x: 0, y: 0 });
    let lost = board.clone();
    board.reveal_at(&Coordinate { x: 0, y: 0 });
    assert_eq!(board, lost);
}

#[test]
fn reveal_floods_the_zero_region_and_its_border() {
    // . . . 1 *
    // . . . 1 1
    // 1 1 . . .
    // * 1 . . .
    let mut board = Board::with_bombs(5, 4, &vec![4, 15]);
    assert_eq!(
        counts(&board),
        vec![vec![0usize, 0, 0, 1, 0], vec![0, 0, 0, 1, 1], vec![1, 1, 0, 0, 0], vec![0, 1, 0, 0, 0]]
    );
    board.reveal_at(&Coordinate { x: 0, y: 0 });
    let o = Status::OpenClear;
    assert_eq!(
        statuses(&board),
        vec![
            vec![o, o, o, o, Status::ClosedBomb],
            vec![o, o, o, o, o],
            vec![o, o, o, o, o],
            vec![Status::ClosedBomb, o, o, o, o],
        ]
    );
    assert_eq!(board.progress(), Progress::Won);
}

#[test]
fn reveal_stops_at_the_border_of_the_region() {
    // a wall of counted cells parts the left zero region from the right one
    // . 1 * 1 .
    // . 1 1 1 .
    // . 1 1 1 .
    // . 1 * 1 .
    let mut board = Board::with_bombs(5, 4, &vec![2, 17]);
    board.reveal_at(&Coordinate { x: 0, y: 3 });
    let o = Status::OpenClear;
    let c = Status::ClosedClear;
    let b = Status::ClosedBomb;
    assert_eq!(
        statuses(&board),
        vec![vec![o, o, b, c, c], vec![o, o, c, c, c], vec![o, o, c, c, c], vec![o, o, b, c, c]]
    );
    assert_eq!(board.progress(), Progress::Ongoing);
    assert_eq!(counts(&board), counts(&Board::with_bombs(5, 4, &vec![2, 17])));
}

#[test]
fn reveal_of_a_counted_cell_does_not_spread() {
    let mut board = Board::with_bombs(5, 4, &vec![2, 17]);
    board.reveal_at(&Coordinate { x: 1, y: 1 });
    let opened: usize =
        board.cells.iter().flatten().filter(|cell| cell.status == Status::OpenClear).count();
    assert_eq!(opened, 1);
    assert_eq!(board.cells[1][1], Cell { status: Status::OpenClear, neighboring_bombs: 1 });
}

#[test]
fn reveal_does_not_reopen_through_open_cells() {
    // the middle column is opened by hand first; a reveal on the left then
    // opens its own side and the open column stays a border
    let mut board = Board::with_bombs(3, 1, &vec![]);
    board.cells[0][1].status = Status::OpenClear;
    board.reveal_at(&Coordinate { x: 0, y: 0 });
    assert_eq!(
        statuses(&board),
        vec![vec![Status::OpenClear, Status::OpenClear, Status::ClosedClear]]
    );
}

#[test]
fn reveal_on_a_large_board_opens_everything() {
    let mut board = Board::new(0, 40, 30).unwrap();
    board.reveal_at(&Coordinate { x: 17, y: 11 });
    assert!(board.cells.iter().flatten().all(|cell| cell.status == Status::OpenClear));
}

#[test]
fn progress_is_won_when_only_bombs_stay_closed() {
    let mut board = Board::with_bombs(2, 2, &vec![3]);
    assert_eq!(board.progress(), Progress::Ongoing);
    board.reveal_at(&Coordinate { x: 0, y: 0 });
    assert_eq!(board.progress(), Progress::Ongoing);
    board.reveal_at(&Coordinate { x: 1, y: 0 });
    board.reveal_at(&Coordinate { x: 0, y: 1 });
    assert_eq!(board.progress(), Progress::Won);
    board.reveal_at(&Coordinate { x: 1, y: 1 });
    assert_eq!(board.progress(), Progress::Lost);
}

#[test]
fn progress_is_lost_whatever_else_is_closed() {
    let mut board = Board::with_bombs(3, 3, &vec![0, 8]);
    board.reveal_at(&Coordinate { x: 2, y: 2 });
    assert_eq!(board.progress(), Progress::Lost);
    board.reveal_at(&Coordinate { x: 1, y: 1 });
    assert_eq!(board.progress(), Progress::Lost);
}

#[test]
fn progress_is_won_on_a_board_of_bombs() {
    let board = Board::with_bombs(2, 1, &vec![0, 1]);
    assert_eq!(board.progress(), Progress::Won);
}
