use othello::board::{Board, Disk, Side};
use othello::engine::{Command, Engine, GameStatus};
use othello::position::Coordinate;

fn coord(col: char, row: usize) -> Coordinate {
    Coordinate::new(col, row).unwrap()
}

fn cell(name: &str) -> Coordinate {
    let mut chars = name.chars();
    let col = chars.next().unwrap();
    let row = chars.next().unwrap().to_digit(10).unwrap() as usize;
    coord(col, row)
}

fn play(engine: &mut Engine, moves: &str) {
    for name in moves.split_whitespace() {
        assert!(engine.place(cell(name)), "{} is refused", name);
    }
}

fn occupied(engine: &Engine) -> usize {
    (0..64).filter(|&i| engine.get_disk_at(Coordinate::from_index(i)).is_some()).count()
}

const START: &str = "........ ........ ........ ...ox... ...xo... ........ ........ ........ ";

#[test]
fn engine_extend_tree() {
    let mut engine = Engine::new();
    engine.extend_tree();
    let current = engine.tree().node(engine.current());
    assert_eq!(current.num_of_children(), 4);

    let node = engine.tree().node(current.get_child(Some(coord('c', 4))).unwrap());
    let output = "\
........ ........ ........ ..xxx... ...xo... ........ ........ ........ ";
    assert_eq!(node.board().to_string(), output);

    let node = engine.tree().node(current.get_child(Some(coord('d', 3))).unwrap());
    let output = "\
........ ........ ...x.... ...xx... ...xo... ........ ........ ........ ";
    assert_eq!(node.board().to_string(), output);

    let node = engine.tree().node(current.get_child(Some(coord('e', 6))).unwrap());
    let output = "\
........ ........ ........ ...ox... ...xx... ....x... ........ ........ ";
    assert_eq!(node.board().to_string(), output);

    let node = engine.tree().node(current.get_child(Some(coord('f', 5))).unwrap());
    let output = "\
........ ........ ........ ...ox... ...xxx.. ........ ........ ........ ";
    assert_eq!(node.board().to_string(), output);
}

#[test]
fn new_game_is_the_starting_position() {
    let engine = Engine::new();
    assert_eq!(engine.current_board().to_string(), START);
    assert_eq!(engine.side(), Side::Dark);
    assert!(!engine.is_over());
    assert_eq!(engine.message(), "");
    assert_eq!(engine.count(), (2, 2));
    assert_eq!(engine.status(), GameStatus::Continue(2, 2, Side::Dark));
    assert_eq!(engine.get_disk_at(coord('d', 4)), Some(Disk::White));
    assert_eq!(engine.get_disk_at(coord('e', 4)), Some(Disk::Black));
    assert_eq!(engine.get_disk_at(coord('a', 1)), None);
}

#[test]
fn init_greets_black() {
    let mut engine = Engine::new();
    engine.action(Command::Init);
    assert_eq!(engine.message(), "Game start! Black's turn");
    assert_eq!(engine.status(), GameStatus::Continue(2, 2, Side::Dark));
    assert_eq!(engine.current_board().to_string(), START);
}

#[test]
fn move_f5_flips_e5() {
    let mut engine = Engine::new();
    engine.action(Command::Init);
    engine.action(Command::Move(coord('f', 5)));
    let output = "\
........ ........ ........ ...ox... ...xxx.. ........ ........ ........ ";
    assert_eq!(engine.current_board().to_string(), output);
    assert_eq!(engine.status(), GameStatus::Continue(4, 1, Side::Light));
    assert_eq!(engine.message(), "White's turn");
}

#[test]
fn move_works_without_init() {
    let mut engine = Engine::new();
    engine.action(Command::Move(coord('f', 5)));
    assert_eq!(engine.status(), GameStatus::Continue(4, 1, Side::Light));
}

#[test]
fn move_on_occupied_cell_is_refused() {
    let mut engine = Engine::new();
    engine.action(Command::Init);
    engine.action(Command::Move(coord('d', 4)));
    assert_eq!(engine.current_board().to_string(), START);
    assert_eq!(engine.status(), GameStatus::Continue(2, 2, Side::Dark));
    assert_eq!(engine.message(), "Can't place there! Black's turn");
    assert!(!engine.place(coord('e', 5)));
    assert_eq!(engine.current_board().to_string(), START);
}

#[test]
fn move_that_flips_nothing_is_refused() {
    let mut engine = Engine::new();
    engine.action(Command::Init);
    engine.action(Command::Move(coord('f', 4)));
    assert_eq!(engine.current_board().to_string(), START);
    assert_eq!(engine.side(), Side::Dark);
    assert_eq!(engine.message(), "Can't place there! Black's turn");
}

#[test]
fn pass_with_a_move_at_hand_is_refused() {
    let mut engine = Engine::new();
    engine.action(Command::Init);
    engine.action(Command::Pass);
    assert_eq!(engine.message(), "Can't pass! Black's turn");
    assert_eq!(engine.status(), GameStatus::Continue(2, 2, Side::Dark));
    assert!(!engine.pass_back());
    assert_eq!(engine.current_board().to_string(), START);
}

#[test]
fn quit_changes_nothing() {
    let mut engine = Engine::new();
    engine.action(Command::Init);
    engine.action(Command::Move(coord('f', 5)));
    engine.action(Command::Quit);
    assert_eq!(engine.status(), GameStatus::Continue(4, 1, Side::Light));
    assert_eq!(engine.message(), "White's turn");
}

#[test]
fn undo_restores_board_and_side() {
    let mut engine = Engine::new();
    engine.action(Command::Init);
    engine.action(Command::Move(coord('f', 5)));
    engine.action(Command::Move(coord('f', 4)));
    let before = engine.current_board().to_string();
    assert_eq!(engine.side(), Side::Dark);
    engine.action(Command::Move(coord('e', 3)));
    assert_eq!(engine.side(), Side::Light);
    engine.action(Command::Undo);
    assert_eq!(engine.current_board().to_string(), before);
    assert_eq!(engine.side(), Side::Dark);
    assert_eq!(engine.message(), "Undid! Black's turn");
    engine.action(Command::Undo);
    assert_eq!(engine.side(), Side::Light);
    assert_eq!(engine.message(), "Undid! White's turn");
    engine.action(Command::Undo);
    assert_eq!(engine.current_board().to_string(), START);
    assert_eq!(engine.side(), Side::Dark);
}

#[test]
fn undo_at_the_start_changes_nothing() {
    let mut engine = Engine::new();
    engine.action(Command::Init);
    engine.action(Command::Undo);
    assert_eq!(engine.message(), "Couldn't undo! Black's turn");
    assert_eq!(engine.current_board().to_string(), START);
    assert_eq!(engine.status(), GameStatus::Continue(2, 2, Side::Dark));
    engine.action(Command::Undo);
    assert_eq!(engine.message(), "Couldn't undo! Black's turn");
    assert_eq!(engine.current_board().to_string(), START);
}

#[test]
fn undone_move_can_be_made_again_from_the_cache() {
    let mut engine = Engine::new();
    engine.action(Command::Init);
    engine.action(Command::Move(coord('f', 5)));
    let nodes = engine.tree().len();
    let after = engine.current_board().to_string();
    engine.action(Command::Undo);
    engine.action(Command::Move(coord('f', 5)));
    assert_eq!(engine.current_board().to_string(), after);
    assert_eq!(engine.tree().len(), nodes);
}

#[test]
fn init_returns_to_the_start() {
    let mut engine = Engine::new();
    engine.action(Command::Init);
    play(&mut engine, "f5 d6 c5");
    engine.action(Command::Init);
    assert_eq!(engine.current_board().to_string(), START);
    assert_eq!(engine.status(), GameStatus::Continue(2, 2, Side::Dark));
    assert_eq!(engine.message(), "Game start! Black's turn");
    engine.action(Command::Undo);
    assert_eq!(engine.message(), "Couldn't undo! Black's turn");
}

#[test]
fn forced_pass_hands_the_move_back() {
    let mut engine = Engine::new();
    engine.action(Command::Init);
    play(&mut engine, "e6 f6 g6 g7 c4 h6 h8");
    let before = "\
........ ........ ........ ..xxx... ...xx... ....xxoo ......x. .......x ";
    assert_eq!(engine.current_board().to_string(), before);
    assert_eq!(engine.status(), GameStatus::Continue(9, 2, Side::Light));

    engine.action(Command::Move(coord('f', 8)));
    let after = "\
........ ........ ........ ..xxx... ...xx... ....xxoo ......o. .....o.x ";
    assert_eq!(engine.current_board().to_string(), after);
    assert_eq!(engine.status(), GameStatus::PassBack(8, 4, Side::Light));
    assert_eq!(engine.side(), Side::Light);
    assert_eq!(engine.message(), "Black must pass");
    assert!(!engine.is_over());

    engine.action(Command::Pass);
    assert_eq!(engine.message(), "Can't pass! White's turn");
    assert_eq!(engine.status(), GameStatus::PassBack(8, 4, Side::Light));

    engine.action(Command::Undo);
    assert_eq!(engine.current_board().to_string(), before);
    assert_eq!(engine.status(), GameStatus::Continue(9, 2, Side::Light));
    assert_eq!(engine.message(), "Undid! White's turn");

    engine.action(Command::Move(coord('f', 8)));
    assert_eq!(engine.status(), GameStatus::PassBack(8, 4, Side::Light));
    engine.action(Command::Move(coord('c', 3)));
    assert_eq!(engine.side(), Side::Dark);
    assert!(matches!(engine.status(), GameStatus::Continue(_, _, Side::Dark)));
}

#[test]
fn two_forced_passes_end_the_game() {
    let mut engine = Engine::new();
    engine.action(Command::Init);
    play(&mut engine, "f5 d6 c5 f4 e7 f6 g5 e6");
    let before = engine.current_board().to_string();
    assert!(!engine.is_over());

    engine.action(Command::Move(coord('e', 3)));
    let output = "\
........ ........ ....x... ...xxx.. ..xxxxx. ...xxx.. ....x... ........ ";
    assert_eq!(engine.current_board().to_string(), output);
    assert!(engine.is_over());
    assert_eq!(engine.status(), GameStatus::GameOver(13, 0));
    assert_eq!(engine.message(), "Game is over! ");
    let (black, white) = engine.count();
    assert_eq!(black as usize + white as usize, occupied(&engine));

    // Nothing moves once the game is over.
    engine.action(Command::Move(coord('a', 1)));
    engine.action(Command::Pass);
    assert_eq!(engine.status(), GameStatus::GameOver(13, 0));
    assert_eq!(engine.message(), "Game is over! ");
    assert!(!engine.place(coord('a', 1)));
    assert!(!engine.pass_back());
    assert_eq!(engine.prepare(), GameStatus::GameOver(13, 0));
    engine.extend_tree();
    assert_eq!(engine.status(), GameStatus::GameOver(13, 0));

    // Taking the last move back reopens the game.
    engine.action(Command::Undo);
    assert!(!engine.is_over());
    assert_eq!(engine.current_board().to_string(), before);
    assert_eq!(engine.side(), Side::Dark);
    assert_eq!(engine.message(), "Undid! Black's turn");

    engine.action(Command::Move(coord('e', 3)));
    assert_eq!(engine.status(), GameStatus::GameOver(13, 0));
}

#[test]
fn prepare_reports_without_moving_where_a_move_is_at_hand() {
    let mut engine = Engine::new();
    assert_eq!(engine.prepare(), GameStatus::Continue(2, 2, Side::Dark));
    assert!(engine.place(coord('f', 5)));
    assert_eq!(engine.prepare(), GameStatus::Continue(4, 1, Side::Light));
    assert_eq!(engine.current(), engine.tree().node(0).get_child(Some(coord('f', 5))).unwrap());
}

#[test]
fn disk_counts_follow_the_board() {
    let mut engine = Engine::new();
    engine.action(Command::Init);
    for name in "f5 f6 e6 f4 e3".split_whitespace() {
        let mover = engine.side();
        let (black, white) = engine.count();
        engine.action(Command::Move(cell(name)));
        let (black2, white2) = engine.count();
        assert_eq!(black2 as usize + white2 as usize, black as usize + white as usize + 1);
        assert_eq!(black2 as usize + white2 as usize, occupied(&engine));
        match mover {
            Side::Dark => assert!(black2 > black + 1 && white2 < white),
            Side::Light => assert!(white2 > white + 1 && black2 < black),
        }
    }
}

fn board_of(black: &[&str], white: &[&str]) -> Board {
    let mut board = Board::new();
    for name in black {
        assert_eq!(board.place(cell(name), Disk::Black), Ok(()));
    }
    for name in white {
        assert_eq!(board.place(cell(name), Disk::White), Ok(()));
    }
    board
}

#[test]
fn position_without_any_move_is_over_after_two_passes() {
    let mut engine = Engine::with_position(board_of(&["a1", "c3"], &["h8"]), Side::Dark);
    assert!(!engine.is_over());
    assert_eq!(engine.status(), GameStatus::Continue(2, 1, Side::Dark));
    assert_eq!(engine.prepare(), GameStatus::GameOver(2, 1));
    assert!(engine.is_over());
    let (black, white) = engine.count();
    assert_eq!(black as usize + white as usize, occupied(&engine));
    assert_eq!(engine.current_board().to_string(), board_of(&["a1", "c3"], &["h8"]).to_string());
}

#[test]
fn pass_command_ends_the_game_where_nobody_can_move() {
    let mut engine = Engine::with_position(board_of(&["a1"], &["h8"]), Side::Light);
    engine.action(Command::Pass);
    assert_eq!(engine.message(), "Game is over! ");
    assert_eq!(engine.status(), GameStatus::GameOver(1, 1));
    engine.action(Command::Undo);
    assert_eq!(engine.message(), "Couldn't undo! Black's turn");
    assert_eq!(engine.status(), GameStatus::GameOver(1, 1));
}

#[test]
fn full_board_is_over() {
    let mut board = Board::new();
    for i in 0..64 {
        let disk = if i % 3 == 0 { Disk::White } else { Disk::Black };
        assert_eq!(board.place(Coordinate::from_index(i), disk), Ok(()));
    }
    let mut engine = Engine::with_position(board, Side::Dark);
    assert_eq!(engine.prepare(), GameStatus::GameOver(42, 22));
    engine.action(Command::Init);
    assert_eq!(engine.status(), GameStatus::GameOver(42, 22));
    assert_eq!(engine.message(), "Game start! White's turn");
}

#[test]
fn pass_command_passes_where_only_the_other_side_can_move() {
    // Black on a1 and White on b1: Black captures from c1, White has no move.
    let mut engine = Engine::with_position(board_of(&["a1"], &["b1"]), Side::Light);
    assert_eq!(engine.status(), GameStatus::Continue(1, 1, Side::Light));
    engine.action(Command::Pass);
    assert_eq!(engine.message(), "Black's turn");
    assert_eq!(engine.status(), GameStatus::PassBack(1, 1, Side::Dark));
    assert_eq!(engine.side(), Side::Dark);
    engine.action(Command::Move(cell("c1")));
    assert_eq!(engine.status(), GameStatus::GameOver(3, 0));
    assert_eq!(engine.message(), "Game is over! ");
    engine.action(Command::Undo);
    assert_eq!(engine.status(), GameStatus::PassBack(1, 1, Side::Dark));
    assert_eq!(engine.message(), "Undid! Black's turn");
    engine.action(Command::Undo);
    assert_eq!(engine.message(), "Couldn't undo! Black's turn");
    assert_eq!(engine.status(), GameStatus::PassBack(1, 1, Side::Dark));
}

#[test]
fn init_makes_the_pass_that_the_first_position_forces() {
    let mut engine = Engine::with_position(board_of(&["a1"], &["b1"]), Side::Light);
    engine.action(Command::Init);
    assert_eq!(engine.message(), "Game start! Black's turn");
    assert_eq!(engine.status(), GameStatus::PassBack(1, 1, Side::Dark));
    assert!(engine.place(cell("c1")));
    engine.action(Command::Init);
    assert_eq!(engine.status(), GameStatus::PassBack(1, 1, Side::Dark));
    assert_eq!(engine.count(), (1, 1));
}

#[test]
fn actions_leave_the_present_node_expanded() {
    let mut engine = Engine::new();
    assert!(!engine.tree().node(engine.current()).any_child());
    assert_eq!(engine.prepare(), GameStatus::Continue(2, 2, Side::Dark));
    assert_eq!(engine.current(), 0);
    assert_eq!(engine.tree().node(0).num_of_children(), 4);

    engine.action(Command::Move(coord('f', 5)));
    let reached = engine.tree().node(0).get_child(Some(coord('f', 5))).unwrap();
    assert_eq!(engine.current(), reached);
    assert_eq!(engine.tree().node(reached).num_of_children(), 3);
    assert_eq!(engine.tree().node(reached).get_parent(), Some(0));

    engine.action(Command::Move(coord('a', 1)));
    assert_eq!(engine.current(), reached);

    engine.action(Command::Undo);
    assert_eq!(engine.current(), 0);
    engine.action(Command::Init);
    assert_eq!(engine.current(), 0);
    assert_eq!(engine.tree().node(0).num_of_children(), 4);
}

#[test]
fn extend_tree_on_an_expanded_node_changes_no_child() {
    let mut engine = Engine::new();
    engine.extend_tree();
    let nodes = engine.tree().len();
    let children: Vec<Option<usize>> = (0..64)
        .map(|i| engine.tree().node(0).get_child(Some(Coordinate::from_index(i))))
        .collect();
    engine.extend_tree();
    assert_eq!(engine.tree().len(), nodes);
    for i in 0..64 {
        let child = engine.tree().node(0).get_child(Some(Coordinate::from_index(i)));
        assert_eq!(child, children[i]);
    }
    assert_eq!(engine.tree().node(0).get_child(None), None);
}

#[test]
fn forced_pass_lands_on_the_expanded_pass_child() {
    let mut engine = Engine::new();
    engine.action(Command::Init);
    play(&mut engine, "e6 f6 g6 g7 c4 h6 h8");
    let before = engine.current();
    engine.action(Command::Move(coord('f', 8)));
    let reached = engine.tree().node(before).get_child(Some(coord('f', 8))).unwrap();
    let stuck = engine.tree().node(reached);
    assert_eq!(stuck.num_of_children(), 1);
    assert_eq!(stuck.get_child(None), Some(engine.current()));
    let here = engine.tree().node(engine.current());
    assert_eq!(here.get_parent(), Some(reached));
    assert_eq!(here.side(), Side::Light);
    assert_eq!(here.num_of_children(), 2);
    assert!(here.get_child(Some(coord('c', 3))).is_some());
    assert!(here.get_child(Some(coord('d', 6))).is_some());

    engine.action(Command::Undo);
    assert_eq!(engine.current(), before);
}
