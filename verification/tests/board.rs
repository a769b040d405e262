use othello::board::{change_turn, flip_disk, Board, Disk, MoveErr, Side};
use othello::position::Coordinate;

fn coord(col: char, row: usize) -> Coordinate {
    Coordinate::new(col, row).unwrap()
}

fn count(board: &Board, disk: Disk) -> usize {
    (0..64).filter(|&i| board.get_disk(Coordinate::from_index(i)) == Some(disk)).count()
}

#[test]
fn flip_disk_and_disk_eq() {
    let black = Disk::Black;
    let white = Disk::White;
    assert_eq!(flip_disk(&black), white);
    assert_eq!(flip_disk(&white), black);
}

#[test]
fn board_display() {
    let mut board = Board::new();
    board.init();
    let output = "\
........ ........ ........ ...ox... ...xo... ........ ........ ........ ";
    assert_eq!(board.to_string(), output);
}

#[test]
fn board_place_occupied_is_refused() {
    let mut board = Board::new();
    board.init();
    let before = board.to_string();
    assert_eq!(board.place(coord('d', 4), Disk::Black), Err(MoveErr::NotEmpty));
    assert_eq!(board.to_string(), before);
    assert_eq!(board.get_disk(coord('d', 4)), Some(Disk::White));
}

#[test]
fn board_flip() {
    let mut board = Board::new();
    board.init();

    board.flip(coord('d', 4));
    board.flip(coord('e', 4));
    board.flip(coord('d', 5));
    board.flip(coord('e', 5));

    let output = "\
........ ........ ........ ...xo... ...ox... ........ ........ ........ ";
    assert_eq!(board.to_string(), output);
}

#[test]
fn board_abort() {
    let mut board = Board::new();
    board.init();

    board.flip(coord('d', 4));
    board.flip(coord('e', 4));
    board.flip(coord('d', 5));
    board.flip(coord('e', 5));
    assert_eq!(board.num_pending(), 4);
    let output = "\
........ ........ ........ ...xo... ...ox... ........ ........ ........ ";
    assert_eq!(board.to_string(), output);

    board.abort();
    assert_eq!(board.num_pending(), 0);
    let output = "\
........ ........ ........ ...ox... ...xo... ........ ........ ........ ";
    assert_eq!(board.to_string(), output);
}

#[test]
fn board_commit() {
    let mut board = Board::new();
    board.init();

    board.flip(coord('d', 4));
    board.flip(coord('e', 4));
    board.flip(coord('d', 5));
    board.flip(coord('e', 5));
    assert_eq!(board.num_pending(), 4);
    let output = "\
........ ........ ........ ...xo... ...ox... ........ ........ ........ ";
    assert_eq!(board.to_string(), output);

    board.commit();
    assert_eq!(board.num_pending(), 0);
    let output = "\
........ ........ ........ ...xo... ...ox... ........ ........ ........ ";
    assert_eq!(board.to_string(), output);
}

#[test]
fn board_try_move() {
    let mut board = Board::new();
    board.init();

    let result = board.try_move(coord('f', 5), Disk::Black);
    let board = result.unwrap();
    let output = "\
........ ........ ........ ...ox... ...xxx.. ........ ........ ........ ";
    assert_eq!(board.to_string(), output);

    let result = board.try_move(coord('f', 5), Disk::White);
    assert_eq!(result.err(), Some(MoveErr::NotEmpty));

    let result = board.try_move(coord('f', 4), Disk::Black);
    assert_eq!(result.err(), Some(MoveErr::NoDiskFlipped));
}

#[test]
fn board_new_is_empty() {
    let board = Board::new();
    for i in 0..64 {
        assert_eq!(board.get_disk(Coordinate::from_index(i)), None);
    }
    assert_eq!(board.num_pending(), 0);
}

#[test]
fn starting_position_has_four_disks_on_two_diagonals() {
    let mut board = Board::new();
    board.init();
    assert_eq!(board.get_disk(coord('d', 5)), Some(Disk::Black));
    assert_eq!(board.get_disk(coord('e', 4)), Some(Disk::Black));
    assert_eq!(board.get_disk(coord('d', 4)), Some(Disk::White));
    assert_eq!(board.get_disk(coord('e', 5)), Some(Disk::White));
    assert_eq!(count(&board, Disk::Black), 2);
    assert_eq!(count(&board, Disk::White), 2);
}

#[test]
fn init_clears_what_was_there() {
    let mut board = Board::new();
    assert_eq!(board.place(coord('a', 1), Disk::White), Ok(()));
    board.init();
    board.flip(coord('d', 4));
    board.init();
    assert_eq!(board.get_disk(coord('a', 1)), None);
    assert_eq!(board.num_pending(), 0);
    assert_eq!(count(&board, Disk::Black) + count(&board, Disk::White), 4);
}

#[test]
fn black_at_f5_captures_e5() {
    let mut board = Board::new();
    board.init();
    let after = board.try_move(coord('f', 5), Disk::Black).unwrap();
    for i in 0..64 {
        let c = Coordinate::from_index(i);
        let expected = if c == coord('d', 5) || c == coord('e', 4) || c == coord('e', 5)
            || c == coord('f', 5)
        {
            Some(Disk::Black)
        } else if c == coord('d', 4) {
            Some(Disk::White)
        } else {
            None
        };
        assert_eq!(after.get_disk(c), expected);
    }
    assert_eq!(count(&after, Disk::Black), 4);
    assert_eq!(count(&after, Disk::White), 1);
    assert_eq!(after.num_pending(), 0);
}

#[test]
fn try_move_leaves_the_board_alone() {
    let mut board = Board::new();
    board.init();
    let before = board.to_string();
    assert!(board.try_move(coord('f', 5), Disk::Black).is_ok());
    assert_eq!(board.to_string(), before);
    assert!(board.try_move(coord('d', 4), Disk::Black).is_err());
    assert_eq!(board.to_string(), before);
    assert!(board.try_move(coord('f', 4), Disk::Black).is_err());
    assert_eq!(board.to_string(), before);
}

#[test]
fn try_move_on_occupied_cell_is_not_empty() {
    let mut board = Board::new();
    board.init();
    assert_eq!(board.try_move(coord('d', 4), Disk::Black).err(), Some(MoveErr::NotEmpty));
    assert_eq!(board.try_move(coord('d', 4), Disk::White).err(), Some(MoveErr::NotEmpty));
}

#[test]
fn try_move_beside_no_line_flips_nothing() {
    let mut board = Board::new();
    board.init();
    assert_eq!(board.try_move(coord('f', 4), Disk::Black).err(), Some(MoveErr::NoDiskFlipped));
    assert_eq!(board.try_move(coord('a', 1), Disk::Black).err(), Some(MoveErr::NoDiskFlipped));
}

#[test]
fn try_move_ignores_pending_flips_of_the_source() {
    let mut board = Board::new();
    board.init();
    board.flip(coord('d', 4));
    board.flip(coord('d', 4));
    assert_eq!(board.num_pending(), 2);
    let after = board.try_move(coord('f', 5), Disk::Black).unwrap();
    assert_eq!(after.num_pending(), 0);
    assert_eq!(count(&after, Disk::Black), 4);
    assert_eq!(count(&after, Disk::White), 1);
    assert_eq!(board.num_pending(), 2);
}

#[test]
fn try_move_captures_in_several_directions() {
    // Row 1: x o o .   and column d: . / o / o / x downwards from d1.
    let mut board = Board::new();
    assert_eq!(board.place(coord('a', 1), Disk::Black), Ok(()));
    assert_eq!(board.place(coord('b', 1), Disk::White), Ok(()));
    assert_eq!(board.place(coord('c', 1), Disk::White), Ok(()));
    assert_eq!(board.place(coord('d', 2), Disk::White), Ok(()));
    assert_eq!(board.place(coord('d', 3), Disk::White), Ok(()));
    assert_eq!(board.place(coord('d', 4), Disk::Black), Ok(()));
    // A diagonal that runs off the board without a closing disk.
    assert_eq!(board.place(coord('e', 2), Disk::White), Ok(()));
    assert_eq!(board.place(coord('f', 3), Disk::White), Ok(()));
    // A line that ends in an empty cell.
    assert_eq!(board.place(coord('e', 1), Disk::White), Ok(()));

    let after = board.try_move(coord('d', 1), Disk::Black).unwrap();
    for c in [coord('b', 1), coord('c', 1), coord('d', 2), coord('d', 3), coord('d', 1)] {
        assert_eq!(after.get_disk(c), Some(Disk::Black));
    }
    for c in [coord('e', 2), coord('f', 3), coord('e', 1)] {
        assert_eq!(after.get_disk(c), Some(Disk::White));
    }
    assert_eq!(count(&after, Disk::Black), count(&board, Disk::Black) + 4 + 1);
    assert_eq!(count(&after, Disk::White), count(&board, Disk::White) - 4);
}

#[test]
fn undo_flip_turns_back_one_disk() {
    let mut board = Board::new();
    board.init();
    assert_eq!(board.undo_flip(), None);
    board.flip(coord('d', 4));
    board.flip(coord('e', 4));
    assert_eq!(board.undo_flip(), Some(coord('e', 4)));
    assert_eq!(board.get_disk(coord('e', 4)), Some(Disk::Black));
    assert_eq!(board.get_disk(coord('d', 4)), Some(Disk::Black));
    assert_eq!(board.num_pending(), 1);
}

#[test]
fn commit_returns_the_number_of_pending_flips() {
    let mut board = Board::new();
    board.init();
    assert_eq!(board.commit(), 0);
    board.flip(coord('d', 4));
    board.flip(coord('e', 4));
    board.flip(coord('d', 5));
    assert_eq!(board.commit(), 3);
    assert_eq!(board.commit(), 0);
}

#[test]
fn sides_and_their_disks() {
    assert_eq!(Side::Dark.to_disk(), Disk::Black);
    assert_eq!(Side::Light.to_disk(), Disk::White);
    assert_eq!(change_turn(Side::Dark), Side::Light);
    assert_eq!(change_turn(Side::Light), Side::Dark);
}
