//! Coordinates on the 8x8 board.
//!
//! A column is a letter from `'a'` to `'h'`, a row a number from 1 to 8. No
//! value of `Column`, `Row` or `Coordinate` ever lies off the board: the
//! constructors reject what is out of range, and so does stepping by an
//! offset.

use vstd::prelude::*;

verus! {

/// The error of a column, a row or a coordinate that lies off the board.
#[derive(Clone, Copy, Debug, PartialEq, Eq, Structural)]
pub struct OutOfBounds;

/// Whether `c` names a column of the board.
pub open spec fn is_column(c: int) -> bool {
    'a' as int <= c <= 'h' as int
}

/// Whether `r` numbers a row of the board.
pub open spec fn is_row(r: int) -> bool {
    1 <= r <= 8
}

/// A column of the board.
#[derive(Clone, Copy, Debug, Hash, PartialEq, Eq, Structural)]
pub struct Column(char);

impl Column {
    /// The letter is one of the board's.
    #[verifier::type_invariant]
    spec fn inv(self) -> bool {
        is_column(self.0 as int)
    }

    /// The letter of this column.
    pub closed spec fn spec_letter(self) -> char {
        self.0
    }

    /// The column with the given letter. Meaningful where the letter is on
    /// the board.
    pub closed spec fn at(letter: int) -> Column {
        Column(letter as char)
    }

    /// The column made of a letter of the board has that letter.
    pub broadcast proof fn lemma_at_letter(letter: int)
        requires
            is_column(letter),
        ensures
            (#[trigger] Column::at(letter)).spec_letter() as int == letter,
    {
    }

    /// A column is the column of its letter.
    pub broadcast proof fn lemma_letter_at(self)
        ensures
            Column::at(#[trigger] self.spec_letter() as int) == self,
    {
    }

    /// The column with letter `index`, or the error where there is none.
    pub fn new(index: char) -> (r: Result<Column, OutOfBounds>)
        ensures
            r is Ok <==> is_column(index as int),
            r is Ok ==> r->Ok_0 == Column::at(index as int),
    {
        if index < 'a' || 'h' < index {
            Err(OutOfBounds)
        } else {
            Ok(Column(index))
        }
    }

    /// The letter of this column, always from `'a'` to `'h'`.
    #[verifier::when_used_as_spec(spec_letter)]
    pub fn letter(self) -> (c: char)
        ensures
            c == self.spec_letter(),
            is_column(c as int),
    {
        proof {
            use_type_invariant(self);
        }
        self.0
    }
}

impl core::ops::Add<i32> for Column {
    type Output = Result<Column, ()>;

    /// The column `rhs` places to the right, or the error where that leaves
    /// the board.
    fn add(self, rhs: i32) -> (r: Result<Column, ()>)
        ensures
            r is Ok <==> is_column(self.spec_letter() as int + rhs),
            r is Ok ==> r->Ok_0 == Column::at(self.spec_letter() as int + rhs),
    {
        let letter: i64 = (self.letter() as u8) as i64 + rhs as i64;
        if 'a' as i64 <= letter && letter <= 'h' as i64 {
            Ok(Column(letter as u8 as char))
        } else {
            Err(())
        }
    }
}

impl vstd::std_specs::ops::AddSpecImpl<i32> for Column {
    /// `+` does what `add_spec` says.
    open spec fn obeys_add_spec() -> bool {
        true
    }

    /// Any offset may be added.
    open spec fn add_req(self, rhs: i32) -> bool {
        true
    }

    /// The column `rhs` places to the right, if the board has one.
    open spec fn add_spec(self, rhs: i32) -> Result<Column, ()> {
        if is_column(self.spec_letter() as int + rhs) {
            Ok(Column::at(self.spec_letter() as int + rhs))
        } else {
            Err(())
        }
    }
}

/// A row of the board.
#[derive(Clone, Copy, Debug, Hash, PartialEq, Eq, Structural)]
pub struct Row(usize);

impl Row {
    /// The number is one of the board's.
    #[verifier::type_invariant]
    spec fn inv(self) -> bool {
        is_row(self.0 as int)
    }

    /// The number of this row.
    pub closed spec fn spec_number(self) -> usize {
        self.0
    }

    /// The row with the given number. Meaningful where the number is on the
    /// board.
    pub closed spec fn at(number: int) -> Row {
        Row(number as usize)
    }

    /// The row made of a number of the board has that number.
    pub broadcast proof fn lemma_at_number(number: int)
        requires
            is_row(number),
        ensures
            (#[trigger] Row::at(number)).spec_number() as int == number,
    {
    }

    /// A row is the row of its number.
    pub broadcast proof fn lemma_number_at(self)
        ensures
            Row::at(#[trigger] self.spec_number() as int) == self,
    {
    }

    /// The row with number `index`, or the error where there is none.
    pub fn new(index: usize) -> (r: Result<Row, OutOfBounds>)
        ensures
            r is Ok <==> is_row(index as int),
            r is Ok ==> r->Ok_0 == Row::at(index as int),
    {
        if index < 1 || 8 < index {
            Err(OutOfBounds)
        } else {
            Ok(Row(index))
        }
    }

    /// The number of this row, always from 1 to 8.
    #[verifier::when_used_as_spec(spec_number)]
    pub fn number(self) -> (n: usize)
        ensures
            n == self.spec_number(),
            is_row(n as int),
    {
        proof {
            use_type_invariant(self);
        }
        self.0
    }
}

impl core::ops::Add<i32> for Row {
    type Output = Result<Row, ()>;

    /// The row `rhs` places further down, or the error where that leaves the
    /// board.
    fn add(self, rhs: i32) -> (r: Result<Row, ()>)
        ensures
            r is Ok <==> is_row(self.spec_number() as int + rhs),
            r is Ok ==> r->Ok_0 == Row::at(self.spec_number() as int + rhs),
    {
        let number: i64 = self.number() as i64 + rhs as i64;
        if 1 <= number && number <= 8 {
            Ok(Row(number as usize))
        } else {
            Err(())
        }
    }
}

impl vstd::std_specs::ops::AddSpecImpl<i32> for Row {
    /// `+` does what `add_spec` says.
    open spec fn obeys_add_spec() -> bool {
        true
    }

    /// Any offset may be added.
    open spec fn add_req(self, rhs: i32) -> bool {
        true
    }

    /// The row `rhs` places further down, if the board has one.
    open spec fn add_spec(self, rhs: i32) -> Result<Row, ()> {
        if is_row(self.spec_number() as int + rhs) {
            Ok(Row::at(self.spec_number() as int + rhs))
        } else {
            Err(())
        }
    }
}

/// A cell of the board: a column and a row.
#[derive(Clone, Copy, Debug, Hash, PartialEq, Eq, Structural)]
pub struct Coordinate {
    col: Column,
    row: Row,
}

impl Coordinate {
    /// The letter of this cell's column.
    pub closed spec fn spec_col(self) -> char {
        self.col.spec_letter()
    }

    /// The number of this cell's row.
    pub closed spec fn spec_row(self) -> usize {
        self.row.spec_number()
    }

    /// The cell in the given column and row. Meaningful where both are on
    /// the board.
    pub closed spec fn at(col: int, row: int) -> Coordinate {
        Coordinate { col: Column::at(col), row: Row::at(row) }
    }

    /// Whether this cell lies on the board. Every cell that a program holds
    /// does; of a cell that only a proof speaks of it has to be stated.
    #[verifier::type_invariant]
    pub open spec fn wf(self) -> bool {
        is_column(self.spec_col() as int) && is_row(self.spec_row() as int)
    }

    /// The column as a number from 0 to 7.
    pub open spec fn x(self) -> int {
        self.spec_col() as int - 'a' as int
    }

    /// The row as a number from 0 to 7.
    pub open spec fn y(self) -> int {
        self.spec_row() as int - 1
    }

    /// The cell `dx` columns to the right and `dy` rows down, if the board
    /// has one.
    pub open spec fn step(self, dx: int, dy: int) -> Option<Coordinate> {
        if is_column(self.spec_col() as int + dx) && is_row(self.spec_row() as int + dy) {
            Some(Coordinate::at(self.spec_col() as int + dx, self.spec_row() as int + dy))
        } else {
            None
        }
    }

    /// A cell made from a column and a row of the board has that column and
    /// that row.
    pub broadcast proof fn lemma_at_parts(col: int, row: int)
        requires
            is_column(col),
            is_row(row),
        ensures
            (#[trigger] Coordinate::at(col, row)).spec_col() as int == col,
            Coordinate::at(col, row).spec_row() as int == row,
            Coordinate::at(col, row).wf(),
    {
        broadcast use Column::lemma_at_letter, Row::lemma_at_number;
    }

    /// A cell is made of its column and its row, and of nothing else.
    pub broadcast proof fn lemma_parts_at(self)
        ensures
            #[trigger] Coordinate::at(self.spec_col() as int, self.spec_row() as int) == self,
    {
        broadcast use Column::lemma_letter_at, Row::lemma_number_at;
    }

    /// Two cells in the same column and the same row are one cell.
    pub proof fn lemma_same_parts(self, other: Coordinate)
        requires
            self.spec_col() == other.spec_col(),
            self.spec_row() == other.spec_row(),
        ensures
            self == other,
    {
        self.lemma_parts_at();
        other.lemma_parts_at();
    }

    /// The number of this cell, counted row by row: 0 for `a1`, 7 for `h1`,
    /// 63 for `h8`.
    pub open spec fn spec_index(self) -> int {
        self.y() * 8 + self.x()
    }

    /// The cell with number `n`.
    pub open spec fn nth(n: int) -> Coordinate {
        Coordinate::at('a' as int + n % 8, 1 + n / 8)
    }

    /// The cell with a number from 0 to 63 lies on the board and has that
    /// number.
    pub proof fn lemma_index_nth(n: int)
        requires
            0 <= n < 64,
        ensures
            Coordinate::nth(n).wf(),
            Coordinate::nth(n).spec_index() == n,
    {
        Coordinate::lemma_at_parts('a' as int + n % 8, 1 + n / 8);
    }

    /// A cell of the board has a number from 0 to 63 and is the cell with that
    /// number: the 64 cells have each a number of its own.
    pub proof fn lemma_nth_index(self)
        requires
            self.wf(),
        ensures
            0 <= self.spec_index() < 64,
            Coordinate::nth(self.spec_index()) == self,
    {
        self.lemma_parts_at();
    }

    /// The cell in column `col` and row `row`, or the error where the board
    /// has no such cell.
    pub fn new(col: char, row: usize) -> (r: Result<Coordinate, OutOfBounds>)
        ensures
            r is Ok <==> is_column(col as int) && is_row(row as int),
            r is Ok ==> r->Ok_0 == Coordinate::at(col as int, row as int),
            r is Ok ==> r->Ok_0.spec_col() == col && r->Ok_0.spec_row() == row,
    {
        match (Column::new(col), Row::new(row)) {
            (Ok(col), Ok(row)) => {
                proof {
                    broadcast use Column::lemma_at_letter, Row::lemma_at_number;
                }
                Ok(Coordinate { col, row })
            },
            (_, _) => Err(OutOfBounds),
        }
    }

    /// The letter of this cell's column.
    #[verifier::when_used_as_spec(spec_col)]
    pub fn col(self) -> (c: char)
        ensures
            c == self.spec_col(),
            self.wf(),
    {
        proof {
            use_type_invariant(self.row);
        }
        self.col.letter()
    }

    /// The number of this cell's row.
    #[verifier::when_used_as_spec(spec_row)]
    pub fn row(self) -> (n: usize)
        ensures
            n == self.spec_row(),
            self.wf(),
    {
        proof {
            use_type_invariant(self.col);
        }
        self.row.number()
    }
}

impl Coordinate {
    /// The number of this cell, from 0 to 63.
    pub fn index(self) -> (i: usize)
        ensures
            i == self.spec_index(),
            0 <= i < 64,
            self.wf(),
    {
        let x: usize = (self.col() as u8 - 'a' as u8) as usize;
        (self.row() - 1) * 8 + x
    }

    /// The cell with number `n`.
    pub fn from_index(n: usize) -> (c: Coordinate)
        requires
            n < 64,
        ensures
            c == Coordinate::nth(n as int),
            c.spec_index() == n,
            c.wf(),
    {
        proof {
            Coordinate::lemma_index_nth(n as int);
            broadcast use Column::lemma_at_letter, Row::lemma_at_number;
        }
        let col: u8 = 'a' as u8 + (n % 8) as u8;
        Coordinate { col: Column(col as char), row: Row(1 + n / 8) }
    }
}

impl core::ops::Add<(i32, i32)> for Coordinate {
    type Output = Result<Coordinate, ()>;

    /// The cell `delta.0` columns to the right and `delta.1` rows down, or
    /// the error where that leaves the board.
    fn add(self, delta: (i32, i32)) -> (r: Result<Coordinate, ()>)
        ensures
            r is Ok <==> self.step(delta.0 as int, delta.1 as int) is Some,
            r is Ok ==> Some(r->Ok_0) == self.step(delta.0 as int, delta.1 as int),
    {
        match (self.col + delta.0, self.row + delta.1) {
            (Ok(col), Ok(row)) => Ok(Coordinate { col, row }),
            (_, _) => Err(()),
        }
    }
}

impl vstd::std_specs::ops::AddSpecImpl<(i32, i32)> for Coordinate {
    /// `+` does what `add_spec` says.
    open spec fn obeys_add_spec() -> bool {
        true
    }

    /// Any offset may be added.
    open spec fn add_req(self, delta: (i32, i32)) -> bool {
        true
    }

    /// The cell `delta.0` columns to the right and `delta.1` rows down, if
    /// the board has one.
    open spec fn add_spec(self, delta: (i32, i32)) -> Result<Coordinate, ()> {
        match self.step(delta.0 as int, delta.1 as int) {
            Some(c) => Ok(c),
            None => Err(()),
        }
    }
}

} // verus!
