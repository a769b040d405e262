//! The positions that a game has reached, kept as a tree: each node holds a
//! board and the side to move, and for each move made from it the node that
//! the move leads to. A node also knows the node it was reached from, so
//! that a move can be taken back without replaying the game.
//!
//! The nodes live in one vector and name each other by their place in it.

use crate::board::{change_turn, Board, Side};
use crate::position::Coordinate;
use crate::rules::{can_move, legal, moved};
use vstd::prelude::*;

verus! {

/// What a node holds: its board, the side to move, the node it was reached
/// from, and the nodes its moves lead to. The key of a move is the cell
/// played, or `None` for a pass.
pub struct NodeView {
    pub board: Board,
    pub turn: Side,
    pub parent: Option<usize>,
    pub children: Map<Option<Coordinate>, usize>,
}

impl NodeView {
    /// Whether any move from this node is known.
    pub open spec fn has_children(self) -> bool {
        exists|k: Option<Coordinate>| self.children.dom().contains(k)
    }
}

/// Whether `key` is a pass or names a cell of the board.
pub open spec fn is_key(key: Option<Coordinate>) -> bool {
    key matches Some(c) ==> c.wf()
}

/// Where a node keeps the child of a move: one place for each cell, by the
/// cell's number, and place 64 for the pass.
pub open spec fn slot_of(key: Option<Coordinate>) -> int {
    match key {
        Some(c) => c.spec_index(),
        None => 64,
    }
}

/// The move whose child is kept in place `slot`.
pub open spec fn key_of(slot: int) -> Option<Coordinate> {
    if slot == 64 {
        None
    } else {
        Some(Coordinate::nth(slot))
    }
}

/// How many of the first `n` places hold a child.
pub open spec fn filled_below(slots: Seq<Option<usize>>, n: int) -> int
    decreases n,
{
    if n <= 0 {
        0
    } else {
        filled_below(slots, n - 1) + if slots[n - 1] is Some {
            1int
        } else {
            0int
        }
    }
}

/// The moves whose children are kept in the first `n` places.
pub open spec fn keys_below(slots: Seq<Option<usize>>, n: int) -> Set<Option<Coordinate>> {
    Set::new(|k: Option<Coordinate>| is_key(k) && slot_of(k) < n && slots[slot_of(k)] is Some)
}

/// Each move has a place of its own.
pub proof fn lemma_slots(key: Option<Coordinate>)
    requires
        is_key(key),
    ensures
        0 <= slot_of(key) < 65,
        key_of(slot_of(key)) == key,
{
    if let Some(c) = key {
        c.lemma_nth_index();
    }
}

/// Each place keeps the child of one move.
pub proof fn lemma_keys(slot: int)
    requires
        0 <= slot < 65,
    ensures
        is_key(key_of(slot)),
        slot_of(key_of(slot)) == slot,
{
    if slot < 64 {
        Coordinate::lemma_index_nth(slot);
    }
}

/// As many moves are known as places are filled.
pub proof fn lemma_filled(slots: Seq<Option<usize>>, n: int)
    requires
        slots.len() == 65,
        0 <= n <= 65,
    ensures
        keys_below(slots, n).finite(),
        keys_below(slots, n).len() == filled_below(slots, n),
    decreases n,
{
    if n == 0 {
        assert(keys_below(slots, 0) =~= Set::<Option<Coordinate>>::empty()) by {
            assert forall|k: Option<Coordinate>| !keys_below(slots, 0).contains(k) by {
                if is_key(k) {
                    lemma_slots(k);
                }
            }
        }
    } else {
        lemma_filled(slots, n - 1);
        lemma_keys(n - 1);
        let k = key_of(n - 1);
        assert forall|o: Option<Coordinate>| is_key(o) && slot_of(o) == n - 1 implies o == k by {
            lemma_slots(o);
        }
        if slots[n - 1] is Some {
            assert(keys_below(slots, n) =~= keys_below(slots, n - 1).insert(k));
        } else {
            assert(keys_below(slots, n) =~= keys_below(slots, n - 1));
        }
    }
}

/// A position of the game: a board, the side to move, the node it was
/// reached from and the nodes that its moves lead to.
pub struct Node {
    board: Board,
    turn: Side,
    parent: Option<usize>,
    slots: Vec<Option<usize>>,
}

impl View for Node {
    type V = NodeView;

    /// What the node holds, with its children by their moves.
    closed spec fn view(&self) -> NodeView {
        NodeView {
            board: self.board,
            turn: self.turn,
            parent: self.parent,
            children: Map::new(
                |k: Option<Coordinate>| is_key(k) && self.slots@[slot_of(k)] is Some,
                |k: Option<Coordinate>| self.slots@[slot_of(k)]->0,
            ),
        }
    }
}

impl Node {
    /// There is a place for each of the 64 cells and one for the pass.
    #[verifier::type_invariant]
    spec fn inv(self) -> bool {
        self.slots@.len() == 65
    }

    /// A node without parent and without children.
    pub fn new(board: Board, turn: Side) -> (r: Node)
        ensures
            r@ == (NodeView { board, turn, parent: None, children: Map::empty() }),
    {
        let mut slots: Vec<Option<usize>> = Vec::new();
        let mut i: usize = 0;
        while i < 65
            invariant
                i <= 65,
                slots@.len() == i,
                forall|j: int| 0 <= j < i ==> slots@[j] is None,
            decreases 65 - i,
        {
            slots.push(None);
            i += 1;
        }
        let r = Node { board, turn, parent: None, slots };
        assert(r@.children =~= Map::empty());
        r
    }

    /// The board of this position.
    pub fn board(&self) -> (r: &Board)
        ensures
            *r == self@.board,
    {
        &self.board
    }

    /// The side to move in this position.
    pub fn side(&self) -> (r: Side)
        ensures
            r == self@.turn,
    {
        self.turn
    }

    /// Notes the node that this one was reached from.
    pub fn set_parent(&mut self, parent: usize)
        ensures
            final(self)@ == (NodeView { parent: Some(parent), ..old(self)@ }),
    {
        proof {
            use_type_invariant(&*self);
        }
        self.parent = Some(parent);
    }

    /// The node that this one was reached from, if it was reached from one.
    pub fn get_parent(&self) -> (r: Option<usize>)
        ensures
            r == self@.parent,
    {
        self.parent
    }

    /// The place that keeps the child of the move `key`.
    fn slot(key: Option<Coordinate>) -> (i: usize)
        ensures
            i == slot_of(key),
            is_key(key),
            i < 65,
    {
        match key {
            Some(c) => c.index(),
            None => 64,
        }
    }

    /// Notes `node` as the node that the move `key` leads to, in place of any
    /// node noted for that move before.
    pub fn insert_child(&mut self, key: Option<Coordinate>, node: usize)
        ensures
            final(self)@ == (NodeView {
                children: old(self)@.children.insert(key, node),
                ..old(self)@
            }),
    {
        proof {
            use_type_invariant(&*self);
        }
        let i = Node::slot(key);
        self.slots[i] = Some(node);
        proof {
            assert forall|o: Option<Coordinate>| is_key(o) && o != key implies slot_of(o) != i by {
                lemma_slots(o);
                lemma_slots(key);
            }
            assert(self@.children =~= old(self)@.children.insert(key, node));
        }
    }

    /// The node that the move `key` leads to, if one is noted.
    pub fn get_child(&self, key: Option<Coordinate>) -> (r: Option<usize>)
        ensures
            r == if self@.children.dom().contains(key) {
                Some(self@.children[key])
            } else {
                None
            },
    {
        proof {
            use_type_invariant(self);
        }
        self.slots[Node::slot(key)]
    }

    /// Forgets the node that the move `key` leads to.
    pub fn remove_child(&mut self, key: Option<Coordinate>)
        ensures
            final(self)@ == (NodeView { children: old(self)@.children.remove(key), ..old(self)@ }),
    {
        proof {
            use_type_invariant(&*self);
        }
        let i = Node::slot(key);
        self.slots[i] = None;
        proof {
            assert forall|o: Option<Coordinate>| is_key(o) && o != key implies slot_of(o) != i by {
                lemma_slots(o);
                lemma_slots(key);
            }
            assert(self@.children =~= old(self)@.children.remove(key));
        }
    }

    /// Whether any move from this node is noted.
    pub fn any_child(&self) -> (r: bool)
        ensures
            r == self@.has_children(),
            r == (self@.children.len() > 0),
    {
        self.num_of_children() > 0
    }

    /// How many moves from this node are noted.
    pub fn num_of_children(&self) -> (n: usize)
        ensures
            n == self@.children.len(),
            self@.children.dom().finite(),
            n > 0 <==> self@.has_children(),
    {
        proof {
            use_type_invariant(self);
        }
        let mut n: usize = 0;
        let mut i: usize = 0;
        while i < 65
            invariant
                i <= 65,
                self.slots@.len() == 65,
                n == filled_below(self.slots@, i as int),
                n <= i,
            decreases 65 - i,
        {
            if self.slots[i].is_some() {
                n += 1;
            }
            i += 1;
        }
        proof {
            lemma_filled(self.slots@, 65);
            assert(self@.children.dom() =~= keys_below(self.slots@, 65)) by {
                assert forall|k: Option<Coordinate>| is_key(k) implies slot_of(k) < 65 by {
                    lemma_slots(k);
                }
            }
            if n > 0 {
                let k = self@.children.dom().choose();
                assert(self@.children.dom().contains(k));
            }
        }
        n
    }

    /// Whether a pass from this node is noted.
    pub fn has_none_key(&self) -> (r: bool)
        ensures
            r == self@.children.dom().contains(None),
    {
        proof {
            use_type_invariant(self);
        }
        self.slots[64].is_some()
    }
}

/// Whether `child` is what the move `key` makes of `parent`: the board after
/// the move, which must be legal, or the same board after a pass, which is
/// allowed only where no move is; the other side moves next.
pub open spec fn follows(parent: NodeView, key: Option<Coordinate>, child: NodeView) -> bool {
    &&& child.turn == parent.turn.other()
    &&& match key {
        Some(pos) => legal(parent.board@, pos, parent.turn.disk()) && child.board@ == moved(
            parent.board@,
            pos,
            parent.turn.disk(),
        ),
        None => !can_move(parent.board@, parent.turn.disk()) && child.board@ == parent.board@,
    }
}

/// Whether the node knows every move that its side can make, and the pass
/// where the side has no move.
pub open spec fn complete(node: NodeView) -> bool {
    &&& forall|pos: Coordinate| #[trigger]
        legal(node.board@, pos, node.turn.disk()) ==> node.children.dom().contains(Some(pos))
    &&& !can_move(node.board@, node.turn.disk()) ==> node.children.dom().contains(None)
}

/// Whether the nodes hang together: each node but the first was reached from
/// an earlier one, and each noted move leads to a later node that was
/// reached from this one and holds what the move makes of it.
pub open spec fn linked(t: Seq<NodeView>) -> bool {
    &&& t.len() >= 1
    &&& t[0].parent is None
    &&& forall|i: int| 1 <= i < t.len() ==> (#[trigger] t[i].parent) is Some && t[i].parent->0 < i
    &&& forall|i: int, k: Option<Coordinate>|
        0 <= i < t.len() && #[trigger] t[i].children.dom().contains(k) ==> {
            let c = t[i].children[k] as int;
            &&& i < c < t.len()
            &&& t[c].parent == Some(i as usize)
            &&& follows(t[i], k, t[c])
        }
}

/// Whether the nodes hang together and each node that knows a move knows
/// them all.
pub open spec fn well_formed(t: Seq<NodeView>) -> bool {
    &&& linked(t)
    &&& forall|i: int| 0 <= i < t.len() && (#[trigger] t[i]).has_children() ==> complete(t[i])
}

/// Whether the nodes `b` are the nodes `a` grown: every node of `a` is still
/// there, with its position and the node it was reached from, and every
/// placement that it knew leads where it led. A pass may be forgotten.
pub open spec fn keeps(a: Seq<NodeView>, b: Seq<NodeView>) -> bool {
    &&& a.len() <= b.len()
    &&& forall|j: int|
        0 <= j < a.len() ==> {
            &&& (#[trigger] b[j]).board == a[j].board
            &&& b[j].turn == a[j].turn
            &&& b[j].parent == a[j].parent
        }
    &&& forall|j: int, pos: Coordinate|
        0 <= j < a.len() && #[trigger] a[j].children.dom().contains(Some(pos))
            ==> b[j].children.dom().contains(Some(pos)) && b[j].children[Some(pos)]
            == a[j].children[Some(pos)]
}

/// The nodes after `child` was added at the end as what the move `key` makes
/// of the node at `id`.
pub open spec fn grown(t: Seq<NodeView>, id: int, key: Option<Coordinate>, child: NodeView) -> Seq<
    NodeView,
> {
    t.push(child).update(
        id,
        NodeView { children: t[id].children.insert(key, t.len() as usize), ..t[id] },
    )
}

/// A new last node that follows from an earlier one keeps the nodes hanging
/// together.
pub proof fn lemma_grown_linked(t: Seq<NodeView>, id: int, key: Option<Coordinate>, child: NodeView)
    requires
        linked(t),
        0 <= id < t.len() <= usize::MAX,
        child.children == Map::<Option<Coordinate>, usize>::empty(),
        child.parent == Some(id as usize),
        follows(t[id], key, child),
    ensures
        linked(grown(t, id, key, child)),
{
    let g = grown(t, id, key, child);
    assert forall|i: int, k: Option<Coordinate>|
        0 <= i < g.len() && #[trigger] g[i].children.dom().contains(k) implies {
        let c = g[i].children[k] as int;
        &&& i < c < g.len()
        &&& g[c].parent == Some(i as usize)
        &&& follows(g[i], k, g[c])
    } by {
        if i == id && k == key {
        } else {
            assert(i < t.len());
            assert(t[i].children.dom().contains(k));
            let c = t[i].children[k] as int;
            assert(i < c < t.len());
        }
    }
    assert forall|i: int| 1 <= i < g.len() implies (#[trigger] g[i].parent) is Some
        && g[i].parent->0 < i by {
        if i < t.len() {
            assert(t[i].parent is Some);
        }
    }
}

/// A new last node becomes the child with the highest number: the children
/// stay within their range, and each node of the range stays the child of a
/// move.
pub proof fn lemma_grown_numbered(
    t: Seq<NodeView>,
    id: int,
    key: Option<Coordinate>,
    child: NodeView,
    first: int,
)
    requires
        0 <= id < first <= t.len() <= usize::MAX,
        !t[id].children.dom().contains(key),
        forall|k: Option<Coordinate>| #[trigger]
            t[id].children.dom().contains(k) ==> first <= t[id].children[k] < t.len(),
        forall|j: int| first <= j < t.len() ==> #[trigger] is_child(t[id], j),
    ensures
        forall|k: Option<Coordinate>| #[trigger]
            grown(t, id, key, child)[id].children.dom().contains(k) ==> first <= grown(
                t,
                id,
                key,
                child,
            )[id].children[k] < t.len() + 1,
        forall|j: int|
            first <= j < t.len() + 1 ==> #[trigger] is_child(grown(t, id, key, child)[id], j),
{
    let g = grown(t, id, key, child)[id];
    assert forall|j: int| first <= j < t.len() + 1 implies #[trigger] is_child(g, j) by {
        if j == t.len() {
            assert(g.children.dom().contains(key) && g.children[key] == j);
        } else {
            assert(is_child(t[id], j));
            let k = choose|k: Option<Coordinate>|
                t[id].children.dom().contains(k) && #[trigger] t[id].children[k] == j;
            assert(g.children.dom().contains(k) && g.children[k] == j);
        }
    }
}

/// Whether the walk over the board, column by column and down each column,
/// has left the cell `c` behind when it stands in column `col` at row `row`.
pub open spec fn passed(c: Coordinate, col: int, row: int) -> bool {
    c.spec_col() < col || (c.spec_col() == col && c.spec_row() < row)
}

/// Whether the node at place `j` is the child of some move from `node`.
pub open spec fn is_child(node: NodeView, j: int) -> bool {
    exists|k: Option<Coordinate>| node.children.dom().contains(k) && #[trigger] node.children[k] == j
}

/// Whether the children of `node` are the nodes from `first` up to `len`,
/// each the child of one move, numbered in the order of the walk over the
/// board.
pub open spec fn numbered(node: NodeView, first: int, len: int) -> bool {
    &&& forall|k: Option<Coordinate>| #[trigger]
        node.children.dom().contains(k) ==> first <= node.children[k] < len
    &&& forall|j: int| first <= j < len ==> #[trigger] is_child(node, j)
    &&& forall|p: Coordinate, q: Coordinate|
        #![trigger node.children.dom().contains(Some(p)), node.children.dom().contains(Some(q))]
        node.children.dom().contains(Some(p)) && node.children.dom().contains(Some(q)) && passed(
            p,
            q.spec_col() as int,
            q.spec_row() as int,
        ) ==> node.children[Some(p)] < node.children[Some(q)]
}

/// What holds of the nodes while the moves from the node at `id` are being
/// found: the nodes hang together, what was there before is as it was, and
/// the node at `id` knows the legal moves among the cells left behind.
pub open spec fn growing(before: Seq<NodeView>, t: Seq<NodeView>, id: int, col: int, row: int) -> bool {
    &&& linked(t)
    &&& 0 <= id < before.len() <= t.len()
    &&& forall|j: int| 0 <= j < before.len() && j != id ==> #[trigger] t[j] == before[j]
    &&& t[id].board == before[id].board
    &&& t[id].turn == before[id].turn
    &&& t[id].parent == before[id].parent
    &&& forall|j: int|
        before.len() <= j < t.len() ==> (#[trigger] t[j]).children == Map::<
            Option<Coordinate>,
            usize,
        >::empty() && t[j].parent == Some(id as usize)
    &&& numbered(t[id], before.len() as int, t.len() as int)
    &&& forall|k: Option<Coordinate>| #[trigger]
        t[id].children.dom().contains(k) <==> k is Some && k->0.wf() && passed(k->0, col, row)
            && legal(t[id].board@, k->0, t[id].turn.disk())
}

/// The positions reached so far, from the first one at place 0.
pub struct Tree {
    nodes: Vec<Node>,
}

impl View for Tree {
    type V = Seq<NodeView>;

    /// The nodes by their places.
    closed spec fn view(&self) -> Seq<NodeView> {
        self.nodes@.map_values(|n: Node| n@)
    }
}

impl Tree {
    /// Whether the tree is in order: see `well_formed`.
    pub open spec fn wf(&self) -> bool {
        well_formed(self@)
    }

    /// A tree of one position, from which no move is known yet.
    pub fn new(board: Board, turn: Side) -> (r: Tree)
        ensures
            r.wf(),
            r@.len() == 1,
            r@[0] == (NodeView { board, turn, parent: None, children: Map::empty() }),
    {
        let mut nodes: Vec<Node> = Vec::new();
        nodes.push(Node::new(board, turn));
        let r = Tree { nodes };
        proof {
            assert(!r@[0].has_children());
        }
        r
    }

    /// How many positions the tree holds.
    pub fn len(&self) -> (n: usize)
        ensures
            n == self@.len(),
    {
        self.nodes.len()
    }

    /// The position at place `id`.
    pub fn node(&self, id: usize) -> (r: &Node)
        requires
            id < self@.len(),
        ensures
            r@ == self@[id as int],
    {
        &self.nodes[id]
    }

    /// Adds `node` at the end and returns its place.
    fn push_node(&mut self, node: Node) -> (id: usize)
        ensures
            final(self)@ == old(self)@.push(node@),
            id == old(self)@.len(),
    {
        let id = self.nodes.len();
        self.nodes.push(node);
        assert(self@ =~= old(self)@.push(node@));
        id
    }

    /// Notes at the node `id` that the move `key` leads to the node `child`.
    fn link(&mut self, id: usize, key: Option<Coordinate>, child: usize)
        requires
            id < old(self)@.len(),
        ensures
            final(self)@ == old(self)@.update(
                id as int,
                NodeView {
                    children: old(self)@[id as int].children.insert(key, child),
                    ..old(self)@[id as int]
                },
            ),
    {
        self.nodes[id].insert_child(key, child);
        assert(self@ =~= old(self)@.update(
            id as int,
            NodeView {
                children: old(self)@[id as int].children.insert(key, child),
                ..old(self)@[id as int]
            },
        ));
    }

    /// Finds the moves from the position at `id`, unless some are known
    /// already: one node for each legal move of the side to move, or, where
    /// it has none, one node for the pass, with the same board. In each of
    /// them the other side moves next.
    pub fn expand(&mut self, id: usize)
        requires
            old(self).wf(),
            id < old(self)@.len(),
        ensures
            final(self).wf(),
            final(self)@.len() >= old(self)@.len(),
            forall|j: int|
                0 <= j < old(self)@.len() && j != id ==> #[trigger] final(self)@[j] == old(
                    self,
                )@[j],
            final(self)@[id as int].board == old(self)@[id as int].board,
            final(self)@[id as int].turn == old(self)@[id as int].turn,
            final(self)@[id as int].parent == old(self)@[id as int].parent,
            old(self)@[id as int].has_children() ==> final(self)@ == old(self)@,
            final(self)@[id as int].has_children(),
            keeps(old(self)@, final(self)@),
            forall|j: int|
                old(self)@.len() <= j < final(self)@.len() ==> (#[trigger] final(self)@[j]).parent
                    == Some(id) && !final(self)@[j].has_children(),
            !old(self)@[id as int].has_children() ==> numbered(
                final(self)@[id as int],
                old(self)@.len() as int,
                final(self)@.len() as int,
            ),
    {
        if self.nodes[id].any_child() {
            return ;
        }
        let disk = self.nodes[id].side().to_disk();
        let next_turn = change_turn(self.nodes[id].side());
        let ghost before = self@;
        assert(!before[id as int].has_children());
        assert forall|k: Option<Coordinate>| !before[id as int].children.dom().contains(k) by {}
        let mut col: u8 = 'a' as u8;
        while col <= 'h' as u8
            invariant
                'a' as u8 <= col <= 'h' as u8 + 1,
                growing(before, self@, id as int, col as int, 1),
                disk == before[id as int].turn.disk(),
                next_turn == before[id as int].turn.other(),
            decreases 'h' as u8 + 1 - col,
        {
            let mut row: usize = 1;
            while row <= 8
                invariant
                    'a' as u8 <= col <= 'h' as u8,
                    1 <= row <= 9,
                    growing(before, self@, id as int, col as int, row as int),
                    disk == before[id as int].turn.disk(),
                    next_turn == before[id as int].turn.other(),
                decreases 9 - row,
            {
                let coord = Coordinate::new(col as char, row).unwrap();
                let ghost t = self@;
                let tried = self.nodes[id].board().try_move(coord, disk);
                if let Ok(board) = tried {
                    let mut node = Node::new(board, next_turn);
                    node.set_parent(id);
                    let ghost view = node@;
                    let child = self.push_node(node);
                    self.link(id, Some(coord), child);
                    proof {
                        assert(self@ == grown(t, id as int, Some(coord), view));
                        lemma_grown_linked(t, id as int, Some(coord), view);
                        lemma_grown_numbered(t, id as int, Some(coord), view, before.len() as int);
                        let t2 = self@;
                        assert forall|p: Coordinate, q: Coordinate|
                            #![trigger t2[id as int].children.dom().contains(Some(p)), t2[id as int].children.dom().contains(Some(q))]
                            t2[id as int].children.dom().contains(Some(p)) && t2[id
                                as int].children.dom().contains(Some(q)) && passed(
                                p,
                                q.spec_col() as int,
                                q.spec_row() as int,
                            ) implies t2[id as int].children[Some(p)] < t2[id
                                as int].children[Some(q)] by {
                            if p != coord {
                                assert(t[id as int].children.dom().contains(Some(p)));
                            }
                            if q != coord {
                                assert(t[id as int].children.dom().contains(Some(q)));
                            }
                        }
                    }
                }
                proof {
                    let t2 = self@;
                    assert forall|k: Option<Coordinate>| #[trigger]
                        t2[id as int].children.dom().contains(k) <==> k is Some && k->0.wf()
                            && passed(k->0, col as int, row + 1) && legal(
                            t2[id as int].board@,
                            k->0,
                            t2[id as int].turn.disk(),
                        ) by {
                        if k is Some && k->0.wf() && k->0.spec_col() == coord.spec_col()
                            && k->0.spec_row() == coord.spec_row() {
                            k->0.lemma_same_parts(coord);
                        }
                        assert(t[id as int].children.dom().contains(k) <==> k is Some && k->0.wf()
                            && passed(k->0, col as int, row as int) && legal(
                            t[id as int].board@,
                            k->0,
                            t[id as int].turn.disk(),
                        ));
                    }
                }
                row += 1;
            }
            proof {
                let t2 = self@;
                assert forall|k: Option<Coordinate>| #[trigger]
                    t2[id as int].children.dom().contains(k) <==> k is Some && k->0.wf() && passed(
                        k->0,
                        col + 1,
                        1,
                    ) && legal(t2[id as int].board@, k->0, t2[id as int].turn.disk()) by {}
            }
            col += 1;
        }
        let ghost t = self@;
        assert forall|pos: Coordinate| #[trigger]
            legal(t[id as int].board@, pos, disk) implies t[id as int].children.dom().contains(
            Some(pos),
        ) by {
            assert(passed(pos, 'h' as int + 1, 1));
        }
        if !self.nodes[id].any_child() {
            let board = self.nodes[id].board().clone();
            let mut node = Node::new(board, next_turn);
            node.set_parent(id);
            let ghost view = node@;
            let child = self.push_node(node);
            self.link(id, None, child);
            proof {
                assert(!can_move(t[id as int].board@, disk)) by {
                    if can_move(t[id as int].board@, disk) {
                        let pos = choose|pos: Coordinate| #[trigger]
                            legal(t[id as int].board@, pos, disk);
                        assert(t[id as int].children.dom().contains(Some(pos)));
                    }
                }
                assert(self@ == grown(t, id as int, None, view));
                lemma_grown_linked(t, id as int, None, view);
                lemma_grown_numbered(t, id as int, None, view, before.len() as int);
                assert(self@[id as int].children.dom().contains(None));
            }
        } else {
            proof {
                let k = choose|k: Option<Coordinate>| t[id as int].children.dom().contains(k);
                assert(legal(t[id as int].board@, k->0, disk));
            }
        }
        proof {
            let t2 = self@;
            assert forall|i: int| 0 <= i < t2.len() && (#[trigger] t2[i]).has_children() implies complete(
                t2[i],
            ) by {
                if i == id {
                } else if i < before.len() {
                    assert(t2[i] == before[i]);
                } else {
                    let k = choose|k: Option<Coordinate>| t2[i].children.dom().contains(k);
                    assert(t[i].children.dom().contains(k) || i == t.len());
                }
            }
        }
    }

    /// Forgets the pass from the position at `id`, if one is noted.
    pub fn remove_pass(&mut self, id: usize)
        requires
            old(self).wf(),
            id < old(self)@.len(),
        ensures
            final(self).wf(),
            final(self)@ == old(self)@.update(
                id as int,
                NodeView {
                    children: old(self)@[id as int].children.remove(None),
                    ..old(self)@[id as int]
                },
            ),
            keeps(old(self)@, final(self)@),
    {
        self.nodes[id].remove_child(None);
        proof {
            let t = old(self)@;
            let t2 = self@;
            assert(t2 =~= t.update(
                id as int,
                NodeView { children: t[id as int].children.remove(None), ..t[id as int] },
            ));
            assert forall|i: int, k: Option<Coordinate>|
                0 <= i < t2.len() && #[trigger] t2[i].children.dom().contains(k) implies {
                let c = t2[i].children[k] as int;
                &&& i < c < t2.len()
                &&& t2[c].parent == Some(i as usize)
                &&& follows(t2[i], k, t2[c])
            } by {
                assert(t[i].children.dom().contains(k));
            }
            assert forall|i: int| 1 <= i < t2.len() implies (#[trigger] t2[i].parent) is Some
                && t2[i].parent->0 < i by {
                assert(t[i].parent is Some);
            }
            assert forall|i: int| 0 <= i < t2.len() && (#[trigger] t2[i]).has_children() implies complete(
                t2[i],
            ) by {
                let k = choose|k: Option<Coordinate>| t2[i].children.dom().contains(k);
                assert(t[i].children.dom().contains(k));
                assert(t[i].has_children());
                if i == id {
                    assert(k is Some);
                    assert(legal(t[i].board@, k->0, t[i].turn.disk()));
                }
            }
        }
    }
}

} // verus!
