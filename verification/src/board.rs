//! Disks, sides and the board that holds the disks.

use crate::position::Coordinate;
use crate::rules::{
    captured, captured_along, captured_before, closing, count, disk_at, is_direction, legal, moved,
    restored, taken, toggled, within, Disks,
};
use vstd::prelude::*;

verus! {

/// A disk on the board, by its colour.
#[derive(Clone, Copy, Debug, PartialEq, Eq, Structural)]
pub enum Disk {
    Black,
    White,
}

impl Disk {
    /// The disk of the other colour.
    pub open spec fn flipped(self) -> Disk {
        match self {
            Disk::Black => Disk::White,
            Disk::White => Disk::Black,
        }
    }
}

/// The disk of the other colour.
pub fn flip_disk(disk: &Disk) -> (r: Disk)
    ensures
        r == disk.flipped(),
{
    match disk {
        Disk::Black => Disk::White,
        Disk::White => Disk::Black,
    }
}

/// A player, by the colour played.
#[derive(Clone, Copy, Debug, PartialEq, Eq, Structural)]
pub enum Side {
    Dark,
    Light,
}

impl Side {
    /// The disk that this side places.
    pub open spec fn disk(self) -> Disk {
        match self {
            Side::Dark => Disk::Black,
            Side::Light => Disk::White,
        }
    }

    /// The side that moves after this one.
    pub open spec fn other(self) -> Side {
        match self {
            Side::Dark => Side::Light,
            Side::Light => Side::Dark,
        }
    }

    /// The disk that this side places.
    pub fn to_disk(&self) -> (r: Disk)
        ensures
            r == self.disk(),
    {
        match self {
            Side::Dark => Disk::Black,
            Side::Light => Disk::White,
        }
    }
}

/// The side that moves after `side`.
pub fn change_turn(side: Side) -> (r: Side)
    ensures
        r == side.other(),
{
    match side {
        Side::Dark => Side::Light,
        Side::Light => Side::Dark,
    }
}

/// Why a disk cannot be placed on a cell.
#[derive(Clone, Copy, Debug, PartialEq, Eq, Structural)]
pub enum MoveErr {
    /// The cell already holds a disk.
    NotEmpty,
    /// The disk would capture nothing.
    NoDiskFlipped,
}

/// The disks of the starting position: four in the middle of the board, each
/// colour on one diagonal.
pub open spec fn starting_disks() -> Disks {
    Map::<Coordinate, Disk>::empty().insert(Coordinate::at('d' as int, 5), Disk::Black).insert(
        Coordinate::at('e' as int, 4),
        Disk::Black,
    ).insert(Coordinate::at('d' as int, 4), Disk::White).insert(
        Coordinate::at('e' as int, 5),
        Disk::White,
    )
}

/// Black, who moves first, has a move in the starting position: a disk on
/// `f5` captures the white disk on `e5`.
pub proof fn lemma_opening_move()
    ensures
        legal(starting_disks(), Coordinate::at('f' as int, 5), Disk::Black),
        crate::rules::can_move(starting_disks(), Disk::Black),
{
    broadcast use Coordinate::lemma_at_parts;

    let m = starting_disks();
    let f5 = Coordinate::at('f' as int, 5);
    let e5 = Coordinate::at('e' as int, 5);
    let d5 = Coordinate::at('d' as int, 5);
    crate::rules::lemma_mul_unit(1, -1);
    crate::rules::lemma_mul_unit(1, 0);
    crate::rules::lemma_mul_unit(2, -1);
    crate::rules::lemma_mul_unit(2, 0);
    assert(crate::rules::ray(f5, -1, 0, 1) == Some(e5));
    assert(crate::rules::ray(f5, -1, 0, 2) == Some(d5));
    assert(disk_at(m, e5) == Some(Disk::White));
    assert(disk_at(m, d5) == Some(Disk::Black));
    assert(closing(m, f5, Disk::Black, -1, 0, 1) == Some(2int)) by {
        reveal_with_fuel(closing, 3);
    }
    crate::rules::lemma_captured_some(m, f5, Disk::Black, -1, 0);
}

/// The sign that text shows for a cell.
pub open spec fn symbol(cell: Option<Disk>) -> char {
    match cell {
        None => '.',
        Some(Disk::Black) => 'x',
        Some(Disk::White) => 'o',
    }
}

/// The board as text: for each row from 1 to 8 the signs of its cells from
/// `a` to `h`, then a space.
pub open spec fn rendered(m: Disks) -> Seq<char> {
    Seq::new(
        72,
        |i: int|
            if i % 9 == 8 {
                ' '
            } else {
                symbol(disk_at(m, Coordinate::at('a' as int + i % 9, 1 + i / 9)))
            },
    )
}

/// The disks on the 64 cells, and the cells turned over since the last
/// commit or abort, oldest first.
pub struct Board {
    cells: Vec<Option<Disk>>,
    stack: Vec<Coordinate>,
}

impl View for Board {
    type V = Disks;

    /// The disks on the board.
    closed spec fn view(&self) -> Disks {
        Map::new(
            |c: Coordinate| c.wf() && self.cells@[c.spec_index()] is Some,
            |c: Coordinate| self.cells@[c.spec_index()]->0,
        )
    }
}

impl Board {
    /// There are 64 cells, and every pending cell is on the board and holds
    /// a disk.
    #[verifier::type_invariant]
    spec fn inv(self) -> bool {
        &&& self.cells@.len() == 64
        &&& forall|i: int|
            0 <= i < self.stack@.len() ==> (#[trigger] self.stack@[i]).wf()
                && self.cells@[self.stack@[i].spec_index()] is Some
    }

    /// The cells turned over since the last commit or abort, oldest first.
    pub closed spec fn pending(&self) -> Seq<Coordinate> {
        self.stack@
    }

    /// Every disk lies on a cell of the board.
    pub broadcast proof fn lemma_on_board(&self)
        ensures
            #[trigger] crate::rules::on_board(self@),
    {
    }

    /// A board without disks.
    pub fn new() -> (r: Board)
        ensures
            r@ == Map::<Coordinate, Disk>::empty(),
            r.pending().len() == 0,
    {
        let mut cells: Vec<Option<Disk>> = Vec::new();
        let mut i: usize = 0;
        while i < 64
            invariant
                i <= 64,
                cells@.len() == i,
                forall|j: int| 0 <= j < i ==> cells@[j] is None,
            decreases 64 - i,
        {
            cells.push(None);
            i += 1;
        }
        let r = Board { cells, stack: Vec::new() };
        assert(r@ =~= Map::<Coordinate, Disk>::empty());
        r
    }

    /// The disk on `coord`, if there is one.
    pub fn get_disk(&self, coord: Coordinate) -> (r: Option<Disk>)
        ensures
            r == disk_at(self@, coord),
    {
        proof {
            use_type_invariant(self);
        }
        self.cells[coord.index()]
    }

    /// How many cells were turned over since the last commit or abort.
    pub fn num_pending(&self) -> (n: usize)
        ensures
            n == self.pending().len(),
    {
        self.stack.len()
    }

    /// Clears the board and sets up the starting position: four disks in the
    /// middle, each colour on one diagonal.
    pub fn init(&mut self)
        ensures
            final(self)@ == starting_disks(),
            final(self).pending().len() == 0,
            count(final(self)@, Disk::Black) == 2,
            count(final(self)@, Disk::White) == 2,
    {
        *self = Board::new();
        proof {
            crate::rules::lemma_count_empty(Disk::Black);
            crate::rules::lemma_count_empty(Disk::White);
            broadcast use Coordinate::lemma_at_parts;
        }
        let d5 = Coordinate::new('d', 5).unwrap();
        let e4 = Coordinate::new('e', 4).unwrap();
        let d4 = Coordinate::new('d', 4).unwrap();
        let e5 = Coordinate::new('e', 5).unwrap();
        let _ = self.place(d5, Disk::Black);
        let _ = self.place(e4, Disk::Black);
        let _ = self.place(d4, Disk::White);
        let _ = self.place(e5, Disk::White);
    }

    /// Puts `disk` on the empty cell `coord`. An occupied cell is refused and
    /// the board stays as it is.
    pub fn place(&mut self, coord: Coordinate, disk: Disk) -> (r: Result<(), MoveErr>)
        ensures
            r is Ok <==> disk_at(old(self)@, coord) is None,
            r is Err ==> r == Err::<(), MoveErr>(MoveErr::NotEmpty) && *final(self) == *old(self),
            r is Ok ==> final(self)@ == old(self)@.insert(coord, disk),
            r is Ok ==> count(final(self)@, disk) == count(old(self)@, disk) + 1,
            r is Ok ==> count(final(self)@, disk.flipped()) == count(old(self)@, disk.flipped()),
            final(self).pending() == old(self).pending(),
    {
        proof {
            use_type_invariant(&*self);
        }
        let i = coord.index();
        if self.cells[i].is_some() {
            return Err(MoveErr::NotEmpty);
        }
        self.cells[i] = Some(disk);
        proof {
            let m1 = old(self)@;
            let m2 = self@;
            assert forall|o: Coordinate| o.wf() && o != coord implies disk_at(m1, o) == disk_at(
                m2,
                o,
            ) by {
                if o.spec_index() == coord.spec_index() {
                    o.lemma_same_parts(coord);
                }
            }
            assert(m2 =~= m1.insert(coord, disk)) by {
                assert forall|o: Coordinate| m2.dom().contains(o) <==> m1.insert(
                    coord,
                    disk,
                ).dom().contains(o) by {
                    if o.wf() && o.spec_index() == coord.spec_index() {
                        o.lemma_same_parts(coord);
                    }
                }
            }
            crate::rules::lemma_count_one_cell(m1, m2, coord, disk);
            crate::rules::lemma_count_one_cell(m1, m2, coord, disk.flipped());
        }
        Ok(())
    }

    /// Turns over the disk on `coord` and notes the cell as pending.
    pub fn flip(&mut self, coord: Coordinate)
        requires
            disk_at(old(self)@, coord) is Some,
        ensures
            final(self)@ == toggled(old(self)@, coord),
            final(self).pending() == old(self).pending().push(coord),
    {
        proof {
            use_type_invariant(&*self);
        }
        let i = coord.index();
        if let Some(disk) = self.cells[i] {
            // The stack is taken out while the disk turns and the stack
            // grows: the board is whole at every call in between.
            let mut stack: Vec<Coordinate> = Vec::new();
            core::mem::swap(&mut stack, &mut self.stack);
            self.cells[i] = Some(flip_disk(&disk));
            stack.push(coord);
            core::mem::swap(&mut stack, &mut self.stack);
            proof {
                Board::lemma_turned(*old(self), *self, coord);
            }
        }
    }

    /// Turns back the disk that was turned over last, and returns its cell.
    /// With nothing pending nothing happens.
    pub fn undo_flip(&mut self) -> (r: Option<Coordinate>)
        ensures
            old(self).pending().len() == 0 ==> r is None && *final(self) == *old(self),
            old(self).pending().len() > 0 ==> r == Some(old(self).pending().last())
                && final(self)@ == toggled(old(self)@, old(self).pending().last())
                && final(self).pending() == old(self).pending().drop_last(),
    {
        proof {
            use_type_invariant(&*self);
        }
        if self.stack.len() == 0 {
            return None;
        }
        let mut stack: Vec<Coordinate> = Vec::new();
        core::mem::swap(&mut stack, &mut self.stack);
        let last = stack.pop();
        if let Some(coord) = last {
            let i = coord.index();
            if let Some(disk) = self.cells[i] {
                self.cells[i] = Some(flip_disk(&disk));
            }
        }
        core::mem::swap(&mut stack, &mut self.stack);
        proof {
            Board::lemma_turned(*old(self), *self, last->0);
        }
        last
    }

    /// Turns back every pending disk, the last one first.
    pub fn abort(&mut self)
        ensures
            final(self)@ == restored(old(self)@, old(self).pending()),
            final(self).pending().len() == 0,
        decreases old(self).pending().len(),
    {
        if let Some(_) = self.undo_flip() {
            self.abort();
        }
    }

    /// Keeps every pending disk as it now lies, and returns how many there
    /// were.
    pub fn commit(&mut self) -> (n: usize)
        ensures
            n == old(self).pending().len(),
            final(self)@ == old(self)@,
            final(self).pending().len() == 0,
    {
        proof {
            use_type_invariant(&*self);
        }
        let size_of_stack = self.stack.len();
        self.stack = Vec::new();
        size_of_stack
    }

    /// A board with the same disks and nothing pending.
    fn settled_copy(&self) -> (r: Board)
        ensures
            r@ == self@,
            r.pending().len() == 0,
    {
        proof {
            use_type_invariant(self);
        }
        let mut cells: Vec<Option<Disk>> = Vec::new();
        let mut i: usize = 0;
        while i < 64
            invariant
                i <= 64,
                self.cells@.len() == 64,
                cells@.len() == i,
                forall|j: int| 0 <= j < i ==> cells@[j] == self.cells@[j],
            decreases 64 - i,
        {
            cells.push(self.cells[i]);
            i += 1;
        }
        let r = Board { cells, stack: Vec::new() };
        assert(r@ =~= self@);
        r
    }

    /// Walks from `coord` in one direction and turns over the disks that a
    /// `disk` placed on `coord` captures there. Returns how many they are.
    fn scan(&mut self, coord: Coordinate, disk: Disk, dx: i32, dy: i32) -> (n: usize)
        requires
            is_direction(dx as int, dy as int),
            old(self).pending().len() == 0,
        ensures
            n == captured_along(old(self)@, coord, disk, dx as int, dy as int),
            final(self).pending().len() == 0,
            final(self)@.dom() == old(self)@.dom(),
            forall|c: Coordinate| #[trigger]
                final(self)@.dom().contains(c) ==> final(self)@[c] == if within(
                    coord,
                    dx as int,
                    dy as int,
                    n as int,
                    c,
                ) {
                    disk
                } else {
                    old(self)@[c]
                },
            count(final(self)@, disk) == count(old(self)@, disk) + n,
            count(final(self)@, disk.flipped()) == count(old(self)@, disk.flipped()) - n,
    {
        let ghost base = self@;
        let mut offset: i32 = 1;
        proof {
            use_type_invariant(coord);
        }
        loop
            invariant
                1 <= offset <= 8,
                coord.wf(),
                is_direction(dx as int, dy as int),
                base == old(self)@,
                self.pending().len() == offset - 1,
                restored(self@, self.pending()) == base,
                self@.dom() == base.dom(),
                forall|c: Coordinate| #[trigger]
                    self@.dom().contains(c) ==> self@[c] == if within(
                        coord,
                        dx as int,
                        dy as int,
                        offset - 1,
                        c,
                    ) {
                        disk
                    } else {
                        base[c]
                    },
                closing(base, coord, disk, dx as int, dy as int, 1) == closing(
                    base,
                    coord,
                    disk,
                    dx as int,
                    dy as int,
                    offset as int,
                ),
                count(self@, disk) == count(base, disk) + offset - 1,
                count(self@, disk.flipped()) == count(base, disk.flipped()) - (offset - 1),
            decreases 9 - offset,
        {
            proof {
                crate::rules::lemma_mul_unit(offset as int, dx as int);
                crate::rules::lemma_mul_unit(offset as int, dy as int);
                if offset == 8 {
                    crate::rules::lemma_ray_short(coord, dx as int, dy as int, 8);
                }
                self.lemma_on_board();
            }
            let found: Option<(Coordinate, Disk)> = match coord + (dx * offset, dy * offset) {
                Ok(c) => match self.get_disk(c) {
                    Some(d) => Some((c, d)),
                    None => None,
                },
                Err(_) => None,
            };
            match found {
                Some((c, d)) => {
                    proof {
                        crate::rules::lemma_ray_line(coord, dx as int, dy as int, offset as int, c);
                        assert(self@.dom().contains(c));
                    }
                    if d == disk {
                        return self.commit();
                    }
                    let ghost before = self@;
                    let ghost stack = self.pending();
                    self.flip(c);
                    proof {
                        crate::rules::lemma_restored_push(before, stack, c);
                        crate::rules::lemma_count_one_cell(before, self@, c, disk);
                        crate::rules::lemma_count_one_cell(before, self@, c, disk.flipped());
                        assert forall|o: Coordinate| #[trigger]
                            self@.dom().contains(o) implies self@[o] == if within(
                            coord,
                            dx as int,
                            dy as int,
                            offset as int,
                            o,
                        ) {
                            disk
                        } else {
                            base[o]
                        } by {
                            crate::rules::lemma_ray_line(
                                coord,
                                dx as int,
                                dy as int,
                                offset as int,
                                o,
                            );
                            assert(before.dom().contains(o));
                        }
                    }
                    offset += 1;
                },
                None => {
                    self.abort();
                    return 0;
                },
            }
        }
    }

    /// Places `disk` on `coord` and turns over what it captures, on a board
    /// of its own: this board stays as it is. The move is refused where the
    /// cell is occupied, and where the disk would capture nothing.
    pub fn try_move(&self, coord: Coordinate, disk: Disk) -> (r: Result<Board, MoveErr>)
        ensures
            r is Ok <==> legal(self@, coord, disk),
            r matches Ok(b) ==> b@ == moved(self@, coord, disk) && b.pending().len() == 0,
            r matches Ok(b) ==> count(b@, disk) == count(self@, disk) + captured(self@, coord, disk)
                + 1,
            r matches Ok(b) ==> count(b@, disk.flipped()) == count(self@, disk.flipped())
                - captured(self@, coord, disk),
            r matches Err(e) ==> e == if disk_at(self@, coord) is Some {
                MoveErr::NotEmpty
            } else {
                MoveErr::NoDiskFlipped
            },
    {
        if self.get_disk(coord).is_some() {
            return Err(MoveErr::NotEmpty);
        }
        proof {
            use_type_invariant(coord);
        }
        let mut board = self.settled_copy();
        let mut num_flip: usize = 0;
        let mut i: usize = 0;
        while i < 9
            invariant
                i <= 9,
                coord.wf(),
                board.pending().len() == 0,
                board@.dom() == self@.dom(),
                forall|c: Coordinate| #[trigger]
                    board@.dom().contains(c) ==> board@[c] == if taken(
                        self@,
                        coord,
                        disk,
                        c,
                        i as int,
                    ) {
                        disk
                    } else {
                        self@[c]
                    },
                num_flip == captured_before(self@, coord, disk, i as int),
                count(board@, disk) == count(self@, disk) + num_flip,
                count(board@, disk.flipped()) == count(self@, disk.flipped()) - num_flip,
            decreases 9 - i,
        {
            let dx: i32 = (i / 3) as i32 - 1;
            let dy: i32 = (i % 3) as i32 - 1;
            if dx != 0 || dy != 0 {
                let ghost before = board@;
                proof {
                    board.lemma_on_board();
                    crate::rules::lemma_closing_agrees(
                        before,
                        self@,
                        coord,
                        disk,
                        dx as int,
                        dy as int,
                        1,
                    );
                    crate::rules::lemma_count_bounds(before);
                    crate::rules::lemma_count_bounds(self@);
                }
                let n = board.scan(coord, disk, dx, dy);
                proof {
                    crate::rules::lemma_count_bounds(board@);
                }
                num_flip += n;
            }
            i += 1;
        }
        proof {
            crate::rules::lemma_captured_before_all(self@, coord, disk);
        }
        if num_flip > 0 {
            let _ = board.place(coord, disk);
            proof {
                self.lemma_on_board();
                assert forall|c: Coordinate| self@.dom().contains(c) implies (taken(
                    self@,
                    coord,
                    disk,
                    c,
                    9,
                ) <==> crate::rules::captures(self@, coord, disk, c)) by {
                    crate::rules::lemma_captures(self@, coord, disk, c);
                }
                assert(board@ =~= moved(self@, coord, disk));
            }
            Ok(board)
        } else {
            Err(MoveErr::NoDiskFlipped)
        }
    }

    /// The board as text, row by row from row 1: `x` for a black disk, `o`
    /// for a white one, `.` for an empty cell, and a space after each row.
    #[allow(clippy::inherent_to_string)]
    pub fn to_string(&self) -> (r: String)
        ensures
            r@ == rendered(self@),
    {
        let ghost text = rendered(self@);
        let mut out = String::new();
        let mut row: usize = 1;
        while row <= 8
            invariant
                1 <= row <= 9,
                text == rendered(self@),
                out@ == text.subrange(0, (row - 1) * 9),
            decreases 9 - row,
        {
            let mut col: u8 = 'a' as u8;
            while col <= 'h' as u8
                invariant
                    1 <= row <= 8,
                    'a' as u8 <= col <= 'h' as u8 + 1,
                    text == rendered(self@),
                    out@ == text.subrange(
                        0,
                        (row - 1) * 9 + (col - 'a' as u8) + if col > 'h' as u8 {
                            1int
                        } else {
                            0int
                        },
                    ),
                decreases 'h' as u8 + 1 - col,
            {
                let ghost at = (row - 1) * 9 + (col - 'a' as u8);
                let coord = Coordinate::new(col as char, row).unwrap();
                proof {
                    reveal_strlit(".");
                    reveal_strlit("x");
                    reveal_strlit("o");
                    reveal_strlit(" ");
                    assert(at % 9 == col - 'a' as u8 && at / 9 == row - 1);
                }
                match self.get_disk(coord) {
                    None => out.append("."),
                    Some(Disk::Black) => out.append("x"),
                    Some(Disk::White) => out.append("o"),
                }
                assert(out@ =~= text.subrange(0, at + 1));
                if col == 'h' as u8 {
                    out.append(" ");
                    assert((at + 1) % 9 == 8);
                    assert(out@ =~= text.subrange(0, at + 2));
                }
                col += 1;
            }
            row += 1;
        }
        assert(out@ =~= text);
        out
    }

    /// What turning over the disk in one cell does to the view.
    proof fn lemma_turned(before: Board, after: Board, coord: Coordinate)
        requires
            coord.wf(),
            before.cells@.len() == 64,
            before.cells@[coord.spec_index()] is Some,
            after.cells@ == before.cells@.update(
                coord.spec_index(),
                Some(before.cells@[coord.spec_index()]->0.flipped()),
            ),
        ensures
            after@ == toggled(before@, coord),
    {
        assert forall|o: Coordinate| o.wf() && o != coord implies o.spec_index()
            != coord.spec_index() by {
            if o.spec_index() == coord.spec_index() {
                o.lemma_same_parts(coord);
            }
        }
        assert(after@ =~= toggled(before@, coord));
    }
}

impl Clone for Board {
    /// A board with the same disks and the same cells pending.
    fn clone(&self) -> (r: Board)
        ensures
            r@ == self@,
            r.pending() == self.pending(),
    {
        proof {
            use_type_invariant(self);
        }
        let settled = self.settled_copy();
        let mut stack: Vec<Coordinate> = Vec::new();
        let mut i: usize = 0;
        while i < self.stack.len()
            invariant
                i <= self.stack@.len(),
                stack@ == self.stack@.subrange(0, i as int),
            decreases self.stack@.len() - i,
        {
            stack.push(self.stack[i]);
            assert(stack@ =~= self.stack@.subrange(0, i + 1));
            i += 1;
        }
        proof {
            use_type_invariant(&settled);
            assert(stack@ =~= self.stack@);
            assert forall|j: int| 0 <= j < stack@.len() implies (#[trigger] stack@[j]).wf()
                && settled.cells@[stack@[j].spec_index()] is Some by {
                assert(self@.dom().contains(stack@[j]));
                assert(settled@.dom().contains(stack@[j]));
            }
        }
        let r = Board { cells: settled.cells, stack };
        assert(r@ =~= self@);
        r
    }
}

} // verus!
