use othello::board::{change_turn, Board, Disk, Side};
use othello::position::Coordinate;
use othello::tree::{Node, Tree};

fn coord(col: char, row: usize) -> Coordinate {
    Coordinate::new(col, row).unwrap()
}

fn starting_board() -> Board {
    let mut board = Board::new();
    board.init();
    board
}

fn grid(board: &Board) -> String {
    let rule = "  +---+---+---+---+---+---+---+---+\n";
    let mut out = String::from("    a   b   c   d   e   f   g   h\n");
    out += rule;
    for row in 1..=8 {
        out += &format!("{} |", row);
        for col in 'a'..='h' {
            let symbol = match board.get_disk(coord(col, row)) {
                None => ' ',
                Some(Disk::Black) => 'x',
                Some(Disk::White) => 'o',
            };
            out += &format!(" {} |", symbol);
        }
        out += "\n";
        out += rule;
    }
    out
}

#[test]
fn node_operations() {
    let board = starting_board();
    let turn = Side::Dark;
    let mut nodes = vec![Node::new(board, turn)];

    let coord = coord('f', 5);
    let board = nodes[0].board().try_move(coord, Disk::Black).unwrap();
    let turn = change_turn(nodes[0].side());
    let child = Node::new(board, turn);

    nodes.push(child);
    nodes[0].insert_child(Some(coord), 1);
    let child = nodes[0].get_child(Some(coord)).unwrap();
    nodes[child].set_parent(0);

    let child = &nodes[nodes[0].get_child(Some(coord)).unwrap()];
    let output = "\
........ ........ ........ ...ox... ...xxx.. ........ ........ ........ ";
    assert_eq!(child.board().to_string(), output);

    let parent = &nodes[child.get_parent().unwrap()];
    let output = "\
........ ........ ........ ...ox... ...xo... ........ ........ ........ ";
    assert_eq!(parent.board().to_string(), output);

    assert!(parent.get_parent().is_none());
    assert!(parent.any_child());
    assert!(!child.any_child());
}

#[test]
fn state_new() {
    let board = starting_board();
    let side = Side::Dark;
    let mut states = vec![Node::new(board, side)];

    let pos = coord('f', 5);
    let board = states[0].board().try_move(pos, side.to_disk()).unwrap();
    let side = change_turn(side);

    states.push(Node::new(board, side));
    states[0].insert_child(Some(pos), 1);
    let child = states[0].get_child(Some(pos)).unwrap();
    states[child].set_parent(0);

    let current = &states[states[0].get_child(Some(pos)).unwrap()];
    let root = &states[0];

    let output = "    \
a   b   c   d   e   f   g   h
  +---+---+---+---+---+---+---+---+
1 |   |   |   |   |   |   |   |   |
  +---+---+---+---+---+---+---+---+
2 |   |   |   |   |   |   |   |   |
  +---+---+---+---+---+---+---+---+
3 |   |   |   |   |   |   |   |   |
  +---+---+---+---+---+---+---+---+
4 |   |   |   | o | x |   |   |   |
  +---+---+---+---+---+---+---+---+
5 |   |   |   | x | o |   |   |   |
  +---+---+---+---+---+---+---+---+
6 |   |   |   |   |   |   |   |   |
  +---+---+---+---+---+---+---+---+
7 |   |   |   |   |   |   |   |   |
  +---+---+---+---+---+---+---+---+
8 |   |   |   |   |   |   |   |   |
  +---+---+---+---+---+---+---+---+
";
    assert_eq!(grid(root.board()), output);

    let output = "    \
a   b   c   d   e   f   g   h
  +---+---+---+---+---+---+---+---+
1 |   |   |   |   |   |   |   |   |
  +---+---+---+---+---+---+---+---+
2 |   |   |   |   |   |   |   |   |
  +---+---+---+---+---+---+---+---+
3 |   |   |   |   |   |   |   |   |
  +---+---+---+---+---+---+---+---+
4 |   |   |   | o | x |   |   |   |
  +---+---+---+---+---+---+---+---+
5 |   |   |   | x | x | x |   |   |
  +---+---+---+---+---+---+---+---+
6 |   |   |   |   |   |   |   |   |
  +---+---+---+---+---+---+---+---+
7 |   |   |   |   |   |   |   |   |
  +---+---+---+---+---+---+---+---+
8 |   |   |   |   |   |   |   |   |
  +---+---+---+---+---+---+---+---+
";
    assert_eq!(grid(current.board()), output);
    assert_eq!(current.side(), Side::Light);
    assert_eq!(current.get_parent(), Some(0));
}

#[test]
fn node_new_has_no_parent_and_no_children() {
    let node = Node::new(starting_board(), Side::Light);
    assert_eq!(node.side(), Side::Light);
    assert_eq!(node.get_parent(), None);
    assert_eq!(node.num_of_children(), 0);
    assert!(!node.any_child());
    assert!(!node.has_none_key());
    assert_eq!(node.get_child(None), None);
    assert_eq!(node.get_child(Some(coord('a', 1))), None);
}

#[test]
fn node_children_are_kept_by_key() {
    let mut node = Node::new(starting_board(), Side::Dark);
    node.insert_child(Some(coord('a', 1)), 7);
    node.insert_child(Some(coord('h', 8)), 8);
    node.insert_child(None, 9);
    assert_eq!(node.num_of_children(), 3);
    assert!(node.has_none_key());
    assert_eq!(node.get_child(Some(coord('a', 1))), Some(7));
    assert_eq!(node.get_child(Some(coord('h', 8))), Some(8));
    assert_eq!(node.get_child(None), Some(9));
    assert_eq!(node.get_child(Some(coord('b', 1))), None);

    node.insert_child(Some(coord('a', 1)), 11);
    assert_eq!(node.num_of_children(), 3);
    assert_eq!(node.get_child(Some(coord('a', 1))), Some(11));

    node.remove_child(None);
    assert!(!node.has_none_key());
    assert_eq!(node.num_of_children(), 2);
    node.remove_child(None);
    assert_eq!(node.num_of_children(), 2);
    node.remove_child(Some(coord('a', 1)));
    node.remove_child(Some(coord('h', 8)));
    assert!(!node.any_child());
}

#[test]
fn tree_expand_finds_the_four_opening_moves() {
    let mut tree = Tree::new(starting_board(), Side::Dark);
    assert_eq!(tree.len(), 1);
    tree.expand(0);
    assert_eq!(tree.len(), 5);
    let root = tree.node(0);
    assert_eq!(root.num_of_children(), 4);
    assert!(!root.has_none_key());
    for i in 0..64 {
        let c = Coordinate::from_index(i);
        let legal = root.board().try_move(c, Disk::Black);
        match root.get_child(Some(c)) {
            Some(id) => {
                let child = tree.node(id);
                assert_eq!(child.board().to_string(), legal.unwrap().to_string());
                assert_eq!(child.side(), Side::Light);
                assert_eq!(child.get_parent(), Some(0));
                assert!(!child.any_child());
            }
            None => assert!(legal.is_err()),
        }
    }
}

#[test]
fn tree_expand_runs_once() {
    let mut tree = Tree::new(starting_board(), Side::Dark);
    tree.expand(0);
    let c4 = tree.node(0).get_child(Some(coord('c', 4)));
    tree.expand(0);
    assert_eq!(tree.len(), 5);
    assert_eq!(tree.node(0).get_child(Some(coord('c', 4))), c4);
}

#[test]
fn tree_expand_without_a_move_notes_the_pass() {
    let mut board = Board::new();
    assert_eq!(board.place(coord('a', 1), Disk::Black), Ok(()));
    let before = board.to_string();
    let mut tree = Tree::new(board, Side::Dark);
    tree.expand(0);
    assert_eq!(tree.len(), 2);
    let root = tree.node(0);
    assert_eq!(root.num_of_children(), 1);
    assert!(root.has_none_key());
    let pass = tree.node(root.get_child(None).unwrap());
    assert_eq!(pass.board().to_string(), before);
    assert_eq!(pass.side(), Side::Light);
    assert_eq!(pass.get_parent(), Some(0));

    tree.remove_pass(0);
    assert!(!tree.node(0).any_child());
    assert_eq!(tree.len(), 2);
}

#[test]
fn tree_expand_numbers_the_children_column_by_column() {
    let mut tree = Tree::new(starting_board(), Side::Dark);
    tree.expand(0);
    let root = tree.node(0);
    assert_eq!(root.get_child(Some(coord('c', 4))), Some(1));
    assert_eq!(root.get_child(Some(coord('d', 3))), Some(2));
    assert_eq!(root.get_child(Some(coord('e', 6))), Some(3));
    assert_eq!(root.get_child(Some(coord('f', 5))), Some(4));

    tree.expand(4);
    assert_eq!(tree.len(), 8);
    let node = tree.node(4);
    assert_eq!(node.get_child(Some(coord('d', 6))), Some(5));
    assert_eq!(node.get_child(Some(coord('f', 4))), Some(6));
    assert_eq!(node.get_child(Some(coord('f', 6))), Some(7));
    assert_eq!(tree.node(0).num_of_children(), 4);
}
