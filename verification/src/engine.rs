//! The game: the position on the board, whose turn it is, and the way back.
//!
//! A game is a trail of positions, from the first to the one on the board.
//! A move adds the position it leads to; where the other side then has no
//! move, the pass that is forced on it follows at once, and where that
//! leaves the mover without a move too, the game is over. Taking a move
//! back cuts the trail down to the last position before it in which the
//! side to move had a choice.

use crate::board::{starting_disks, Board, Disk, Side};
use crate::position::Coordinate;
use crate::rules::{can_move, count, legal, moved, Disks};
use crate::tree::{complete, keeps, linked, numbered, NodeView, Tree};
use vstd::prelude::*;
use vstd::string::*;

verus! {

/// What a caller can ask of the game.
#[derive(Clone, Copy, Debug, PartialEq, Eq, Structural)]
pub enum Command {
    /// Start again from the first position.
    Init,
    /// Leave the game. Nothing happens here: closing down is the caller's part.
    Quit,
    /// Take the last move back.
    Undo,
    /// Pass, where the side to move has no move.
    Pass,
    /// Place a disk on a cell.
    Move(Coordinate),
}

/// How the game stands: the black and the white disks on the board and,
/// while the game lasts, the side to move.
#[derive(Clone, Copy, Debug, PartialEq, Eq, Structural)]
pub enum GameStatus {
    /// Neither side has a move.
    GameOver(u8, u8),
    /// The side moves again, because the other side had to pass.
    PassBack(u8, u8, Side),
    /// The side moves in its turn.
    Continue(u8, u8, Side),
}

/// A position: the disks on the board and the side to move.
pub struct Position {
    pub board: Disks,
    pub turn: Side,
}

impl Position {
    /// Whether the side to move may place a disk on `pos`.
    pub open spec fn allows(self, pos: Coordinate) -> bool {
        legal(self.board, pos, self.turn.disk())
    }

    /// Whether the side to move has no move.
    pub open spec fn stuck(self) -> bool {
        !can_move(self.board, self.turn.disk())
    }

    /// The position after the side to move placed a disk on `pos`.
    pub open spec fn played(self, pos: Coordinate) -> Position {
        Position { board: moved(self.board, pos, self.turn.disk()), turn: self.turn.other() }
    }

    /// The position after the side to move passed.
    pub open spec fn passed(self) -> Position {
        Position { board: self.board, turn: self.turn.other() }
    }
}

/// The state of a game: the positions from the first to the present one,
/// whether the game is over, and the last message for the players.
pub struct EngineView {
    pub trail: Seq<Position>,
    pub over: bool,
    pub message: Seq<char>,
}

impl EngineView {
    /// The position on the board.
    pub open spec fn here(self) -> Position {
        self.trail.last()
    }

    /// Whether the present position was reached by a pass: the side that
    /// moved before had no move.
    pub open spec fn by_pass(self) -> bool {
        self.trail.len() >= 2 && self.trail[self.trail.len() - 2].stuck()
    }

    /// The state after the pass that is forced where the side to move has no
    /// move: the other side moves on the same board, and where it has no move
    /// either the game is over. Where the side to move has a move, or the
    /// game is over already, nothing changes.
    pub open spec fn settled(self) -> EngineView {
        if !self.over && self.here().stuck() {
            EngineView {
                trail: self.trail.push(self.here().passed()),
                over: self.here().passed().stuck(),
                ..self
            }
        } else {
            self
        }
    }

    /// The state after a disk was placed on `pos`, with the pass that this
    /// may force on the other side. Where the move is not allowed, nothing
    /// changes.
    pub open spec fn placed(self, pos: Coordinate) -> EngineView {
        if !self.over && self.here().allows(pos) {
            (EngineView { trail: self.trail.push(self.here().played(pos)), ..self }).settled()
        } else {
            self
        }
    }

    /// The state after the last move was taken back: the game stands at the
    /// last earlier position in which the side to move had a move, and is
    /// not over. Where there is no such position, nothing changes.
    pub open spec fn undone(self) -> EngineView {
        let back = back_to_choice(self.trail.drop_last());
        if back.len() > 0 {
            EngineView { trail: back, over: false, ..self }
        } else {
            self
        }
    }

    /// The state at the start: the first position, with the pass that it may
    /// force.
    pub open spec fn restarted(self) -> EngineView {
        (EngineView { trail: seq![self.trail[0]], over: false, ..self }).settled()
    }

    /// The state after `Init`: the game starts again, and the message greets
    /// the side to move.
    pub open spec fn after_init(self) -> EngineView {
        let next = self.restarted();
        EngineView { message: "Game start! "@ + turn_text(next.here().turn), ..next }
    }

    /// The state after `Undo`: the last move is taken back, or the message
    /// says that there is none to take back.
    pub open spec fn after_undo(self) -> EngineView {
        let next = self.undone();
        if back_to_choice(self.trail.drop_last()).len() > 0 {
            EngineView { message: "Undid! "@ + turn_text(next.here().turn), ..next }
        } else {
            EngineView { message: "Couldn't undo! "@ + turn_text(next.here().turn), ..next }
        }
    }

    /// The state after `Pass`: nothing happens once the game is over;
    /// a side that has a move is told that it cannot pass; a side that has
    /// none passes, which may end the game.
    pub open spec fn after_pass(self) -> EngineView {
        let next = self.settled();
        if self.over {
            self
        } else if !self.here().stuck() {
            EngineView { message: "Can't pass! "@ + turn_text(next.here().turn), ..next }
        } else if next.over {
            EngineView { message: "Game is over! "@, ..next }
        } else {
            EngineView { message: turn_text(next.here().turn), ..next }
        }
    }

    /// The state after `Move`: nothing happens once the game is over; a move
    /// that is not legal is refused; a legal one is made, and the message
    /// names the side to move, or the side that had to pass, or says that
    /// the game is over.
    pub open spec fn after_move(self, pos: Coordinate) -> EngineView {
        let next = self.placed(pos);
        if self.over {
            self
        } else if !self.here().allows(pos) {
            EngineView { message: "Can't place there! "@ + turn_text(next.here().turn), ..next }
        } else if next.over {
            EngineView { message: "Game is over! "@, ..next }
        } else if next.by_pass() {
            EngineView { message: pass_text(next.here().turn.other()), ..next }
        } else {
            EngineView { message: turn_text(next.here().turn), ..next }
        }
    }

    /// The state after a command.
    pub open spec fn after(self, command: Command) -> EngineView {
        match command {
            Command::Init => self.after_init(),
            Command::Quit => self,
            Command::Undo => self.after_undo(),
            Command::Pass => self.after_pass(),
            Command::Move(pos) => self.after_move(pos),
        }
    }

    /// How the game stands.
    pub open spec fn status(self) -> GameStatus {
        let black = count(self.here().board, Disk::Black) as u8;
        let white = count(self.here().board, Disk::White) as u8;
        if self.over {
            GameStatus::GameOver(black, white)
        } else if self.by_pass() {
            GameStatus::PassBack(black, white, self.here().turn)
        } else {
            GameStatus::Continue(black, white, self.here().turn)
        }
    }
}

/// The trail cut down to its last position in which the side to move has a
/// move; empty where it has none in any.
pub open spec fn back_to_choice(trail: Seq<Position>) -> Seq<Position>
    decreases trail.len(),
{
    if trail.len() == 0 || !trail.last().stuck() {
        trail
    } else {
        back_to_choice(trail.drop_last())
    }
}

/// The words for the side to move.
pub open spec fn turn_text(side: Side) -> Seq<char> {
    match side {
        Side::Dark => "Black's turn"@,
        Side::Light => "White's turn"@,
    }
}

/// The words for the side that must pass.
pub open spec fn pass_text(side: Side) -> Seq<char> {
    match side {
        Side::Dark => "Black must pass"@,
        Side::Light => "White must pass"@,
    }
}

/// Taking back a move that was just made restores the position before it,
/// board and side to move, and the whole trail that led there; the game is
/// not over then.
pub proof fn lemma_undo_restores(v: EngineView, pos: Coordinate)
    requires
        v.trail.len() >= 1,
        !v.over,
        v.here().allows(pos),
    ensures
        v.placed(pos).undone().trail == v.trail,
        v.placed(pos).undone().here() == v.here(),
        !v.placed(pos).undone().over,
        v.after(Command::Move(pos)).after(Command::Undo).trail == v.trail,
        !v.after(Command::Move(pos)).after(Command::Undo).over,
{
    let made = v.trail.push(v.here().played(pos));
    assert(made.drop_last() =~= v.trail);
    assert(back_to_choice(v.trail) == v.trail);
    if v.here().played(pos).stuck() {
        let passed = made.push(v.here().played(pos).passed());
        assert(passed.drop_last() =~= made);
        assert(back_to_choice(made) == back_to_choice(made.drop_last()));
    }
}

/// At the first position there is nothing to take back: the game stays as
/// it is, and the message says so.
pub proof fn lemma_undo_at_start(v: EngineView)
    requires
        v.trail.len() == 1,
    ensures
        v.undone() == v,
        v.after(Command::Undo) == (EngineView {
            message: "Couldn't undo! "@ + turn_text(v.here().turn),
            ..v
        }),
{
    assert(v.trail.drop_last() =~= Seq::empty());
}

/// Where neither side has a move the forced pass ends the game, with the
/// disks counted as they lie: the pass changes no disk, and the two counts
/// together are the occupied cells.
pub proof fn lemma_double_pass_ends(v: EngineView)
    requires
        v.trail.len() >= 1,
        crate::rules::on_board(v.here().board),
        !v.over,
        v.here().stuck(),
        v.here().passed().stuck(),
    ensures
        v.settled().over,
        v.settled().here().board == v.here().board,
        v.settled().status() == GameStatus::GameOver(
            count(v.here().board, Disk::Black) as u8,
            count(v.here().board, Disk::White) as u8,
        ),
        count(v.here().board, Disk::Black) + count(v.here().board, Disk::White)
            == v.here().board.dom().len(),
{
    crate::rules::lemma_counts_cover(v.here().board);
}

/// A move that is refused leaves the board, the side to move and the trail
/// as they were.
pub proof fn lemma_refused_move(v: EngineView, pos: Coordinate)
    requires
        v.over || !v.here().allows(pos),
    ensures
        v.after(Command::Move(pos)).trail == v.trail,
        v.after(Command::Move(pos)).over == v.over,
{
}

/// The position that a node holds.
pub open spec fn position_of(n: NodeView) -> Position {
    Position { board: n.board@, turn: n.turn }
}

/// The positions from the first node to the node `id`, along the way that
/// the nodes point back.
pub open spec fn trail_to(t: Seq<NodeView>, id: int) -> Seq<Position>
    decreases id,
{
    if 0 <= id < t.len() && t[id].parent is Some && t[id].parent->0 < id {
        trail_to(t, t[id].parent->0 as int).push(position_of(t[id]))
    } else {
        seq![position_of(t[id])]
    }
}

/// The places of the nodes from the first node to the node `id`, along the
/// way that the nodes point back.
pub open spec fn path_to(t: Seq<NodeView>, id: int) -> Seq<int>
    decreases id,
{
    if 0 <= id < t.len() && t[id].parent is Some && t[id].parent->0 < id {
        path_to(t, t[id].parent->0 as int).push(id)
    } else {
        seq![id]
    }
}

/// Whether every node on the way back from the node `id` knows its moves.
pub open spec fn rooted(t: Seq<NodeView>, id: int) -> bool
    decreases id,
{
    &&& 0 <= id < t.len()
    &&& t[id].parent is Some ==> {
        &&& t[id].parent->0 < id
        &&& t[t[id].parent->0 as int].has_children()
        &&& rooted(t, t[id].parent->0 as int)
    }
}

/// The trail to a node starts at the first node and ends in the node itself.
pub proof fn lemma_trail_ends(t: Seq<NodeView>, id: int)
    requires
        linked(t),
        0 <= id < t.len(),
    ensures
        trail_to(t, id).len() >= 1,
        trail_to(t, id).last() == position_of(t[id]),
        trail_to(t, id)[0] == position_of(t[0]),
        id > 0 ==> trail_to(t, id).drop_last() == trail_to(t, t[id].parent->0 as int),
        id == 0 ==> trail_to(t, id).len() == 1,
    decreases id,
{
    if id > 0 {
        let p = t[id].parent->0 as int;
        lemma_trail_ends(t, p);
        assert(trail_to(t, id).drop_last() =~= trail_to(t, p));
    }
}

/// The trail to a node holds the positions of the nodes on the way to it,
/// one for one: the way starts at the first node and ends at the node, and
/// each node on it was reached from the one before.
pub proof fn lemma_path(t: Seq<NodeView>, id: int)
    requires
        linked(t),
        0 <= id < t.len(),
    ensures
        path_to(t, id).len() == trail_to(t, id).len(),
        path_to(t, id).last() == id,
        path_to(t, id)[0] == 0,
        id > 0 ==> path_to(t, id).drop_last() == path_to(t, t[id].parent->0 as int),
        forall|i: int|
            0 <= i < path_to(t, id).len() ==> 0 <= #[trigger] path_to(t, id)[i] < t.len()
                && trail_to(t, id)[i] == position_of(t[path_to(t, id)[i]]),
        forall|i: int|
            1 <= i < path_to(t, id).len() ==> t[#[trigger] path_to(t, id)[i]].parent == Some(
                path_to(t, id)[i - 1] as usize,
            ),
    decreases id,
{
    if id > 0 {
        let p = t[id].parent->0 as int;
        lemma_path(t, p);
        assert(path_to(t, id).drop_last() =~= path_to(t, p));
    }
}

/// What does not change on the way back from a node stays the same for the
/// trail to it: the trail holds only the positions on that way, and whether
/// the nodes on it know their moves.
pub proof fn lemma_trail_stable(t: Seq<NodeView>, t2: Seq<NodeView>, id: int)
    requires
        linked(t),
        0 <= id < t.len() <= t2.len(),
        forall|j: int|
            0 <= j <= id ==> (#[trigger] t2[j]).parent == t[j].parent && position_of(t2[j])
                == position_of(t[j]),
        forall|j: int| 0 <= j < id && t[j].has_children() ==> (#[trigger] t2[j]).has_children(),
    ensures
        trail_to(t2, id) == trail_to(t, id),
        rooted(t, id) ==> rooted(t2, id),
    decreases id,
{
    if id > 0 {
        let p = t[id].parent->0 as int;
        lemma_trail_stable(t, t2, p);
        assert(t2[p].parent == t[p].parent);
    }
}

/// A move that a node knows leads one position further.
pub proof fn lemma_trail_step(t: Seq<NodeView>, id: int, key: Option<Coordinate>)
    requires
        linked(t),
        rooted(t, id),
        t[id].children.dom().contains(key),
    ensures
        rooted(t, t[id].children[key] as int),
        trail_to(t, t[id].children[key] as int) == trail_to(t, id).push(
            position_of(t[t[id].children[key] as int]),
        ),
{
}

/// A game and the positions explored in it.
pub struct Engine {
    tree: Tree,
    current: usize,
    status: String,
    is_over: bool,
}

impl View for Engine {
    type V = EngineView;

    /// The state of the game: the trail to the present node, and the rest as
    /// it is kept.
    closed spec fn view(&self) -> EngineView {
        EngineView {
            trail: trail_to(self.tree@, self.current as int),
            over: self.is_over,
            message: self.status@,
        }
    }
}

impl Engine {
    /// Whether the game is in order. A new game is, and every action keeps
    /// it so.
    pub closed spec fn wf(&self) -> bool {
        &&& self.tree.wf()
        &&& rooted(self.tree@, self.current as int)
        &&& self.is_over ==> self@.here().stuck() && self@.here().passed().stuck()
    }

    /// The positions explored so far.
    pub closed spec fn nodes(&self) -> Seq<NodeView> {
        self.tree@
    }

    /// The place of the present position among the positions explored.
    pub closed spec fn cursor(&self) -> int {
        self.current as int
    }

    /// Whether the moves from the present position are known.
    pub open spec fn expanded(&self) -> bool {
        self.nodes()[self.cursor()].has_children()
    }

    /// Whether the present node is where the game comes to rest after it
    /// arrived at the node `id` in the state `arrived`: the node that the
    /// pass from `id` leads to, where the pass is forced, else `id` itself;
    /// and its moves are known unless the game is over.
    pub open spec fn settled_from(&self, id: int, arrived: EngineView) -> bool {
        &&& if !arrived.over && arrived.here().stuck() {
            self.nodes()[id].children.dom().contains(None) && self.cursor()
                == self.nodes()[id].children[None]
        } else {
            self.cursor() == id
        }
        &&& !self@.over ==> self.expanded()
    }

    /// Whether the present node and the nodes explored are what `command`
    /// makes of them, from the game `before`:
    /// - `Quit`, and `Pass` and `Move` once the game is over, leave both;
    /// - `Undo` leaves the nodes and goes back along the way to the node on
    ///   it at which the trail now ends, or stays where nothing is taken
    ///   back;
    /// - `Init` comes to rest from the first node, `Pass` from the present
    ///   one, a legal `Move` from the node that the move leads to;
    /// - a `Move` that is refused stays, with the moves from there known.
    pub open spec fn explored_from(&self, before: Engine, command: Command) -> bool {
        match command {
            Command::Init => self.settled_from(
                0,
                EngineView { trail: seq![before@.trail[0]], over: false, ..before@ },
            ),
            Command::Quit => self.nodes() == before.nodes() && self.cursor() == before.cursor(),
            Command::Undo => self.nodes() == before.nodes() && if back_to_choice(
                before@.trail.drop_last(),
            ).len() > 0 {
                self.cursor() == path_to(before.nodes(), before.cursor())[self@.trail.len() - 1]
                    && self.expanded()
            } else {
                self.cursor() == before.cursor()
            },
            Command::Pass => if before@.over {
                self.nodes() == before.nodes() && self.cursor() == before.cursor()
            } else {
                self.settled_from(before.cursor(), before@)
            },
            Command::Move(pos) => if before@.over {
                self.nodes() == before.nodes() && self.cursor() == before.cursor()
            } else if before@.here().allows(pos) {
                self.nodes()[before.cursor()].children.dom().contains(Some(pos))
                    && self.settled_from(
                    self.nodes()[before.cursor()].children[Some(pos)] as int,
                    EngineView {
                        trail: before@.trail.push(before@.here().played(pos)),
                        ..before@
                    },
                )
            } else {
                self.cursor() == before.cursor() && self.expanded()
            },
        }
    }

    /// The present position is one of those explored, and the trail holds
    /// the positions on the way to it. A game that is over is one in which
    /// neither side has a move.
    pub proof fn lemma_here(&self)
        requires
            self.wf(),
        ensures
            crate::tree::well_formed(self.nodes()),
            0 <= self.cursor() < self.nodes().len(),
            self@.trail.len() >= 1,
            self@.here() == position_of(self.nodes()[self.cursor()]),
            self@.trail == trail_to(self.nodes(), self.cursor()),
            self@.trail.len() == path_to(self.nodes(), self.cursor()).len(),
            self@.over ==> self@.here().stuck() && self@.here().passed().stuck(),
    {
        lemma_trail_ends(self.tree@, self.current as int);
        lemma_path(self.tree@, self.current as int);
    }

    /// Where the moves from the present position are known, the node holds
    /// exactly them: a child for each legal placement and for no other cell,
    /// the pass exactly where the side to move has no move, and each child
    /// holds the position that its move leads to.
    pub proof fn lemma_moves_known(&self)
        requires
            self.wf(),
            self.expanded(),
        ensures
            complete(self.nodes()[self.cursor()]),
            forall|pos: Coordinate|
                self.nodes()[self.cursor()].children.dom().contains(Some(pos))
                    <==> #[trigger] self@.here().allows(pos),
            self.nodes()[self.cursor()].children.dom().contains(None) <==> self@.here().stuck(),
            forall|key: Option<Coordinate>| #[trigger]
                self.nodes()[self.cursor()].children.dom().contains(key) ==> {
                    let child = self.nodes()[self.cursor()].children[key] as int;
                    &&& self.cursor() < child < self.nodes().len()
                    &&& self.nodes()[child].parent == Some(self.cursor() as usize)
                    &&& position_of(self.nodes()[child]) == match key {
                        Some(pos) => self@.here().played(pos),
                        None => self@.here().passed(),
                    }
                },
    {
        self.lemma_here();
        Engine::lemma_pass_known(self.tree@, self.current as int);
    }

    /// A game at the starting position, with Black to move.
    pub fn new() -> (r: Engine)
        ensures
            r.wf(),
            r@ == (EngineView {
                trail: seq![Position { board: starting_disks(), turn: Side::Dark }],
                over: false,
                message: Seq::empty(),
            }),
            !r@.here().stuck(),
            r.cursor() == 0,
            r.nodes().len() == 1,
            !r.nodes()[0].has_children(),
    {
        proof {
            crate::board::lemma_opening_move();
        }
        let mut board = Board::new();
        board.init();
        Engine::with_position(board, Side::Dark)
    }

    /// A game that starts at the given position, with `turn` to move.
    pub fn with_position(board: Board, turn: Side) -> (r: Engine)
        ensures
            r.wf(),
            r@ == (EngineView {
                trail: seq![Position { board: board@, turn }],
                over: false,
                message: Seq::empty(),
            }),
            r.cursor() == 0,
            r.nodes().len() == 1,
            !r.nodes()[0].has_children(),
    {
        let tree = Tree::new(board, turn);
        let r = Engine { tree, current: 0, status: String::new(), is_over: false };
        proof {
            assert(r@.trail =~= seq![Position { board: board@, turn }]);
        }
        r
    }

    /// The positions explored so far.
    pub fn tree(&self) -> (r: &Tree)
        requires
            self.wf(),
        ensures
            r.wf(),
            r@ == self.nodes(),
    {
        &self.tree
    }

    /// The place of the present position in the tree.
    pub fn current(&self) -> (r: usize)
        requires
            self.wf(),
        ensures
            r == self.cursor(),
            r < self.nodes().len(),
    {
        self.current
    }

    /// The board of the present position.
    pub fn current_board(&self) -> (r: &Board)
        requires
            self.wf(),
        ensures
            r@ == self@.here().board,
    {
        proof {
            self.lemma_here();
        }
        self.tree.node(self.current).board()
    }

    /// The side to move.
    pub fn side(&self) -> (r: Side)
        requires
            self.wf(),
        ensures
            r == self@.here().turn,
    {
        proof {
            self.lemma_here();
        }
        self.tree.node(self.current).side()
    }

    /// Whether the game is over.
    pub fn is_over(&self) -> (r: bool)
        ensures
            r == self@.over,
    {
        self.is_over
    }

    /// The last message for the players.
    pub fn message(&self) -> (r: &str)
        ensures
            r@ == self@.message,
    {
        self.status.as_str()
    }

    /// The disk on `pos` in the present position, if there is one.
    pub fn get_disk_at(&self, pos: Coordinate) -> (r: Option<Disk>)
        requires
            self.wf(),
        ensures
            r == crate::rules::disk_at(self@.here().board, pos),
    {
        self.current_board().get_disk(pos)
    }

    /// The black and the white disks on the board.
    pub fn count(&self) -> (r: (u8, u8))
        requires
            self.wf(),
        ensures
            r.0 == count(self@.here().board, Disk::Black),
            r.1 == count(self@.here().board, Disk::White),
            r.0 + r.1 == self@.here().board.dom().len(),
    {
        let board = self.current_board();
        proof {
            board.lemma_on_board();
            crate::rules::lemma_counts_cover(board@);
        }
        let mut black: u8 = 0;
        let mut white: u8 = 0;
        let mut i: usize = 0;
        while i < 64
            invariant
                i <= 64,
                black == crate::rules::count_below(board@, Disk::Black, i as int),
                white == crate::rules::count_below(board@, Disk::White, i as int),
                black + white <= i,
            decreases 64 - i,
        {
            match board.get_disk(Coordinate::from_index(i)) {
                None => (),
                Some(Disk::Black) => black += 1,
                Some(Disk::White) => white += 1,
            }
            i += 1;
        }
        (black, white)
    }

    /// A node on the trail that knows its moves knows the pass exactly where
    /// its side has no move.
    proof fn lemma_pass_known(t: Seq<NodeView>, id: int)
        requires
            crate::tree::well_formed(t),
            0 <= id < t.len(),
            t[id].has_children(),
        ensures
            t[id].children.dom().contains(None) <==> position_of(t[id]).stuck(),
            forall|pos: Coordinate|
                t[id].children.dom().contains(Some(pos)) <==> #[trigger] position_of(t[id]).allows(
                    pos,
                ),
            t[id].children.dom().contains(None) ==> position_of(t[t[id].children[None] as int])
                == position_of(t[id]).passed(),
            forall|pos: Coordinate| #[trigger]
                t[id].children.dom().contains(Some(pos)) ==> position_of(
                    t[t[id].children[Some(pos)] as int],
                ) == position_of(t[id]).played(pos),
    {
        assert(complete(t[id]));
    }

    /// Finds the moves from the present position, unless they are known
    /// already. The game itself stays as it is.
    pub fn extend_tree(&mut self)
        requires
            old(self).wf(),
        ensures
            final(self).wf(),
            keeps(old(self).nodes(), final(self).nodes()),
            forall|j: int|
                0 <= j < old(self).nodes().len() && j != old(self).cursor()
                    ==> #[trigger] final(self).nodes()[j] == old(self).nodes()[j],
            old(self).expanded() ==> final(self).nodes() == old(self).nodes(),
            !old(self).expanded() ==> numbered(
                final(self).nodes()[final(self).cursor()],
                old(self).nodes().len() as int,
                final(self).nodes().len() as int,
            ),
            final(self).expanded(),
            complete(final(self).nodes()[final(self).cursor()]),
            final(self)@ == old(self)@,
            final(self).cursor() == old(self).cursor(),
    {
        let ghost t = self.tree@;
        self.tree.expand(self.current);
        proof {
            lemma_trail_stable(t, self.tree@, self.current as int);
        }
    }

    /// Passes, where the game is not over and the side to move has no move:
    /// the other side moves next, on the same board. Returns whether it
    /// passed.
    pub fn pass_back(&mut self) -> (r: bool)
        requires
            old(self).wf(),
        ensures
            final(self).wf(),
            keeps(old(self).nodes(), final(self).nodes()),
            forall|j: int|
                0 <= j < old(self).nodes().len() && j != old(self).cursor()
                    ==> #[trigger] final(self).nodes()[j] == old(self).nodes()[j],
            old(self)@.over ==> final(self).nodes() == old(self).nodes(),
            !old(self)@.over ==> final(self).nodes()[old(self).cursor()].has_children(),
            r ==> final(self).nodes()[old(self).cursor()].children.dom().contains(None)
                && final(self).cursor() == final(self).nodes()[old(self).cursor()].children[None],
            !r ==> final(self).cursor() == old(self).cursor(),
            r <==> !old(self)@.over && old(self)@.here().stuck(),
            r ==> final(self)@ == (EngineView {
                trail: old(self)@.trail.push(old(self)@.here().passed()),
                ..old(self)@
            }),
            !r ==> final(self)@ == old(self)@,
    {
        if self.is_over {
            return false;
        }
        self.extend_tree();
        proof {
            self.lemma_here();
            Engine::lemma_pass_known(self.tree@, self.current as int);
            if self.tree@[self.current as int].children.dom().contains(None) {
                lemma_trail_step(self.tree@, self.current as int, None);
            }
        }
        match self.tree.node(self.current).get_child(None) {
            Some(node) => {
                self.current = node;
                true
            },
            None => false,
        }
    }

    /// Ends the game where the side to move, to which a pass has handed the
    /// move, has no move either.
    fn end_if_stuck(&mut self)
        requires
            old(self).wf(),
            !old(self)@.over,
            old(self)@.here().passed().stuck(),
        ensures
            final(self).wf(),
            keeps(old(self).nodes(), final(self).nodes()),
            forall|j: int|
                0 <= j < old(self).nodes().len() && j != old(self).cursor()
                    ==> #[trigger] final(self).nodes()[j] == old(self).nodes()[j],
            final(self).cursor() == old(self).cursor(),
            !final(self)@.over ==> final(self).expanded(),
            final(self)@ == (EngineView { over: old(self)@.here().stuck(), ..old(self)@ }),
    {
        self.extend_tree();
        proof {
            self.lemma_here();
            Engine::lemma_pass_known(self.tree@, self.current as int);
        }
        if self.tree.node(self.current).has_none_key() {
            let ghost t = self.tree@;
            self.tree.remove_pass(self.current);
            self.is_over = true;
            proof {
                lemma_trail_stable(t, self.tree@, self.current as int);
            }
        }
    }

    /// Makes the pass that the position forces, if it forces one, and ends
    /// the game where the other side has no move either. Returns how the
    /// game stands then.
    pub fn prepare(&mut self) -> (r: GameStatus)
        requires
            old(self).wf(),
        ensures
            final(self).wf(),
            keeps(old(self).nodes(), final(self).nodes()),
            final(self).settled_from(old(self).cursor(), old(self)@),
            old(self)@.over ==> final(self).nodes() == old(self).nodes(),
            final(self)@ == old(self)@.settled(),
            r == final(self)@.status(),
    {
        if self.pass_back() {
            self.end_if_stuck();
        }
        self.status()
    }

    /// How the game stands.
    pub fn status(&self) -> (r: GameStatus)
        requires
            self.wf(),
        ensures
            r == self@.status(),
    {
        let (black, white) = self.count();
        proof {
            self.lemma_here();
            crate::rules::lemma_count_bounds(self@.here().board);
        }
        if self.is_over {
            return GameStatus::GameOver(black, white);
        }
        let node = self.tree.node(self.current);
        let by_pass = match node.get_parent() {
            Some(parent) => {
                proof {
                    lemma_trail_ends(self.tree@, parent as int);
                    Engine::lemma_pass_known(self.tree@, parent as int);
                }
                self.tree.node(parent).has_none_key()
            },
            None => false,
        };
        if by_pass {
            GameStatus::PassBack(black, white, node.side())
        } else {
            GameStatus::Continue(black, white, node.side())
        }
    }

    /// Places a disk of the side to move on `pos`, where the game is not
    /// over and the move is legal; the pass that this may force on the other
    /// side follows at once. Returns whether the disk was placed.
    pub fn place(&mut self, pos: Coordinate) -> (r: bool)
        requires
            old(self).wf(),
        ensures
            final(self).wf(),
            keeps(old(self).nodes(), final(self).nodes()),
            final(self).explored_from(*old(self), Command::Move(pos)),
            r <==> !old(self)@.over && old(self)@.here().allows(pos),
            final(self)@ == old(self)@.placed(pos),
    {
        if self.is_over {
            return false;
        }
        self.extend_tree();
        proof {
            self.lemma_here();
            Engine::lemma_pass_known(self.tree@, self.current as int);
            if self.tree@[self.current as int].children.dom().contains(Some(pos)) {
                lemma_trail_step(self.tree@, self.current as int, Some(pos));
            }
        }
        match self.tree.node(self.current).get_child(Some(pos)) {
            Some(node) => {
                self.current = node;
                let _ = self.prepare();
                true
            },
            None => false,
        }
    }

    /// Adds the words for the side to move to the message.
    fn append_turn_to_status(&mut self)
        requires
            old(self).wf(),
        ensures
            final(self).wf(),
            final(self).nodes() == old(self).nodes(),
            final(self).cursor() == old(self).cursor(),
            final(self)@ == (EngineView {
                message: old(self)@.message + turn_text(old(self)@.here().turn),
                ..old(self)@
            }),
    {
        match self.side() {
            Side::Dark => self.status.append("Black's turn"),
            Side::Light => self.status.append("White's turn"),
        }
    }

    /// Adds the words for the side that had to pass to the message: the side
    /// that is not to move now.
    fn append_pass_to_status(&mut self)
        requires
            old(self).wf(),
        ensures
            final(self).wf(),
            final(self).nodes() == old(self).nodes(),
            final(self).cursor() == old(self).cursor(),
            final(self)@ == (EngineView {
                message: old(self)@.message + pass_text(old(self)@.here().turn.other()),
                ..old(self)@
            }),
    {
        match self.side() {
            Side::Dark => self.status.append("White must pass"),
            Side::Light => self.status.append("Black must pass"),
        }
    }

    /// Replaces the message by `text`.
    fn say(&mut self, text: &str)
        requires
            old(self).wf(),
        ensures
            final(self).wf(),
            final(self).nodes() == old(self).nodes(),
            final(self).cursor() == old(self).cursor(),
            final(self)@ == (EngineView { message: text@, ..old(self)@ }),
    {
        self.status = String::from_str(text);
    }

    /// Empties the message.
    fn clear_message(&mut self)
        requires
            old(self).wf(),
        ensures
            final(self).wf(),
            final(self).nodes() == old(self).nodes(),
            final(self).cursor() == old(self).cursor(),
            final(self)@ == (EngineView { message: Seq::empty(), ..old(self)@ }),
    {
        self.status = String::new();
    }

    /// Starts the game again from the first position.
    pub fn init(&mut self)
        requires
            old(self).wf(),
        ensures
            final(self).wf(),
            keeps(old(self).nodes(), final(self).nodes()),
            final(self).explored_from(*old(self), Command::Init),
            final(self)@ == old(self)@.after_init(),
    {
        proof {
            self.lemma_here();
            lemma_trail_ends(self.tree@, self.current as int);
            lemma_trail_ends(self.tree@, 0);
        }
        self.current = 0;
        self.is_over = false;
        assert(self@.trail =~= seq![old(self)@.trail[0]]);
        let _ = self.prepare();
        self.say("Game start! ");
        self.append_turn_to_status();
    }

    /// Leaves the game as it is: closing down is the caller's part.
    pub fn quit(&self) {
    }

    /// Takes the last move back: the game returns to the last earlier
    /// position in which the side to move had a move.
    pub fn undo(&mut self)
        requires
            old(self).wf(),
        ensures
            final(self).wf(),
            keeps(old(self).nodes(), final(self).nodes()),
            final(self).explored_from(*old(self), Command::Undo),
            final(self)@ == old(self)@.after_undo(),
    {
        proof {
            self.lemma_here();
        }
        let ghost t = self.tree@;
        let ghost back = back_to_choice(self@.trail.drop_last());
        let ghost path = path_to(t, self.current as int);
        let mut at: Option<usize> = self.tree.node(self.current).get_parent();
        let mut climbing = true;
        proof {
            lemma_trail_ends(t, self.current as int);
            lemma_path(t, self.current as int);
            if at is None {
                assert(self@.trail.drop_last() =~= Seq::empty());
            } else {
                assert(path.drop_last() =~= path.subrange(0, path.len() - 1));
            }
        }
        while climbing
            invariant
                self.wf(),
                *self == *old(self),
                t == self.tree@,
                crate::tree::well_formed(t),
                at matches Some(p) ==> p < t.len() && rooted(t, p as int) && t[p as int].has_children(),
                path == path_to(t, old(self).cursor()),
                at matches Some(p) ==> path_to(t, p as int).len() <= path.len() && path_to(
                    t,
                    p as int,
                ) == path.subrange(0, path_to(t, p as int).len() as int),
                climbing ==> back == match at {
                    Some(p) => back_to_choice(trail_to(t, p as int)),
                    None => Seq::empty(),
                },
                !climbing ==> back == match at {
                    Some(p) => trail_to(t, p as int),
                    None => Seq::empty(),
                },
            decreases
                    (match at {
                        Some(p) => p as int + 1,
                        None => 0int,
                    }),
                    (if climbing {
                        1int
                    } else {
                        0int
                    }),
        {
            match at {
                Some(p) => {
                    proof {
                        lemma_trail_ends(t, p as int);
                        lemma_path(t, p as int);
                        Engine::lemma_pass_known(t, p as int);
                    }
                    if self.tree.node(p).has_none_key() {
                        at = self.tree.node(p).get_parent();
                        proof {
                            let trail = trail_to(t, p as int);
                            assert(trail.last().stuck());
                            assert(back_to_choice(trail) == back_to_choice(trail.drop_last()));
                            if at is None {
                                assert(trail.drop_last() =~= Seq::empty());
                                assert(back_to_choice(Seq::<Position>::empty()) =~= Seq::empty());
                            } else {
                                assert(p > 0);
                                assert(trail.drop_last() == trail_to(t, at->0 as int));
                                let way = path_to(t, p as int);
                                assert(way.drop_last() =~= path.subrange(0, way.len() - 1));
                            }
                        }
                    } else {
                        climbing = false;
                    }
                },
                None => {
                    climbing = false;
                },
            }
        }
        match at {
            Some(node) => {
                proof {
                    lemma_trail_ends(t, node as int);
                    lemma_path(t, node as int);
                    let way = path_to(t, node as int);
                    assert(path[way.len() - 1] == way.last());
                }
                self.current = node;
                self.is_over = false;
                self.say("Undid! ");
            },
            None => {
                self.say("Couldn't undo! ");
            },
        }
        self.append_turn_to_status();
    }

    /// Passes for the side to move, where it has no move; where the other
    /// side has none either, the game is over. A side that has a move is told
    /// that it cannot pass. Once the game is over nothing happens.
    pub fn pass(&mut self)
        requires
            old(self).wf(),
        ensures
            final(self).wf(),
            keeps(old(self).nodes(), final(self).nodes()),
            final(self).explored_from(*old(self), Command::Pass),
            final(self)@ == old(self)@.after_pass(),
    {
        if self.is_over {
            return ;
        }
        if self.pass_back() {
            self.end_if_stuck();
            if self.is_over {
                self.say("Game is over! ");
                return ;
            }
            self.clear_message();
        } else {
            self.say("Can't pass! ");
        }
        self.append_turn_to_status();
        assert(Seq::<char>::empty() + turn_text(self@.here().turn) =~= turn_text(
            self@.here().turn,
        ));
    }

    /// Places a disk of the side to move on `coord`, where that is legal,
    /// and says in the message how the game goes on. Once the game is over
    /// nothing happens.
    pub fn try_move(&mut self, coord: Coordinate)
        requires
            old(self).wf(),
        ensures
            final(self).wf(),
            keeps(old(self).nodes(), final(self).nodes()),
            final(self).explored_from(*old(self), Command::Move(coord)),
            final(self)@ == old(self)@.after_move(coord),
    {
        if self.is_over {
            return ;
        }
        if self.place(coord) {
            match self.status() {
                GameStatus::GameOver(_, _) => {
                    self.say("Game is over! ");
                },
                GameStatus::PassBack(_, _, _) => {
                    self.clear_message();
                    self.append_pass_to_status();
                    assert(self@.message =~= pass_text(self@.here().turn.other()));
                },
                GameStatus::Continue(_, _, _) => {
                    self.clear_message();
                    self.append_turn_to_status();
                    assert(self@.message =~= turn_text(self@.here().turn));
                },
            }
        } else {
            self.say("Can't place there! ");
            self.append_turn_to_status();
        }
    }

    /// Carries out a command.
    pub fn action(&mut self, command: Command)
        requires
            old(self).wf(),
        ensures
            final(self).wf(),
            keeps(old(self).nodes(), final(self).nodes()),
            final(self).explored_from(*old(self), command),
            final(self)@ == old(self)@.after(command),
    {
        match command {
            Command::Init => self.init(),
            Command::Quit => self.quit(),
            Command::Undo => self.undo(),
            Command::Pass => self.pass(),
            Command::Move(coord) => self.try_move(coord),
        }
    }
}

} // verus!
