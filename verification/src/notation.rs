//! Cells as players write them: a column letter and a row number, `a1` to
//! `h8`.

use crate::position::{is_column, is_row};
use vstd::prelude::*;
use vstd::slice::*;
use vstd::string::*;

verus! {

/// Whether `b` is one of the digits `0` to `9`.
pub open spec fn is_digit(b: u8) -> bool {
    '0' as u8 <= b <= '9' as u8
}

/// The number that the digits write in base ten.
pub open spec fn value(digits: Seq<u8>) -> int
    decreases digits.len(),
{
    if digits.len() == 0 {
        0
    } else {
        value(digits.drop_last()) * 10 + (digits.last() - '0' as u8)
    }
}

/// The digits of a number: the text without the plus sign that may stand
/// before them.
pub open spec fn unsigned(text: Seq<u8>) -> Seq<u8> {
    if text.len() > 0 && text[0] == '+' as u8 {
        text.subrange(1, text.len() as int)
    } else {
        text
    }
}

/// The row that `text` names: a number from 1 to 8 in digits, zeros before
/// it and a plus sign before those allowed.
pub open spec fn row_of(text: Seq<u8>) -> Option<usize> {
    let digits = unsigned(text);
    if digits.len() >= 1 && (forall|i: int| 0 <= i < digits.len() ==> is_digit(#[trigger] digits[i]))
        && is_row(value(digits)) {
        Some(value(digits) as usize)
    } else {
        None
    }
}

/// The cell that `bytes` name: a column letter from `a` to `h`, then the row.
pub open spec fn cell_of(bytes: Seq<u8>) -> Option<(char, usize)> {
    if bytes.len() >= 2 && is_column(bytes[0] as int) && row_of(
        bytes.subrange(1, bytes.len() as int),
    ) is Some {
        Some((bytes[0] as char, row_of(bytes.subrange(1, bytes.len() as int))->0))
    } else {
        None
    }
}

/// More digits never write a smaller number.
proof fn lemma_value_grows(digits: Seq<u8>, n: int)
    requires
        0 <= n <= digits.len(),
        forall|i: int| 0 <= i < digits.len() ==> is_digit(#[trigger] digits[i]),
    ensures
        0 <= value(digits.subrange(0, n)) <= value(digits),
    decreases digits.len() - n,
{
    if n == digits.len() {
        assert(digits.subrange(0, n) =~= digits);
        lemma_value_positive(digits);
    } else {
        lemma_value_grows(digits, n + 1);
        let longer = digits.subrange(0, n + 1);
        assert(longer.drop_last() =~= digits.subrange(0, n));
        lemma_value_positive(digits.subrange(0, n));
    }
}

/// Digits write no number below nought.
proof fn lemma_value_positive(digits: Seq<u8>)
    requires
        forall|i: int| 0 <= i < digits.len() ==> is_digit(#[trigger] digits[i]),
    ensures
        0 <= value(digits),
    decreases digits.len(),
{
    if digits.len() > 0 {
        lemma_value_positive(digits.drop_last());
    }
}

/// Reads the row of a cell from its digits.
fn parse_row(text: &[u8], from: usize) -> (r: Option<usize>)
    requires
        from <= text@.len(),
    ensures
        r == row_of(text@.subrange(from as int, text@.len() as int)),
{
    let ghost whole = text@.subrange(from as int, text@.len() as int);
    let mut i: usize = from;
    if i < text.len() && text[i] == '+' as u8 {
        i += 1;
    }
    let ghost digits = unsigned(whole);
    let start = i;
    assert(digits =~= text@.subrange(start as int, text@.len() as int));
    if i == text.len() {
        return None;
    }
    let mut row: usize = 0;
    while i < text.len()
        invariant
            start <= i <= text@.len(),
            start < text@.len(),
            digits == text@.subrange(start as int, text@.len() as int),
            whole == text@.subrange(from as int, text@.len() as int),
            digits == unsigned(whole),
            forall|j: int| 0 <= j < i - start ==> is_digit(#[trigger] digits[j]),
            row == value(digits.subrange(0, i - start)),
            row <= 8,
        decreases text@.len() - i,
    {
        let b = text[i];
        if b < '0' as u8 || b > '9' as u8 {
            assert(!is_digit(digits[i - start]));
            return None;
        }
        let ghost longer = digits.subrange(0, i - start + 1);
        assert(longer.drop_last() =~= digits.subrange(0, i - start));
        assert(longer.last() == b);
        let next = row * 10 + (b - '0' as u8) as usize;
        if next > 8 {
            proof {
                if forall|j: int| 0 <= j < digits.len() ==> is_digit(#[trigger] digits[j]) {
                    lemma_value_grows(digits, i - start + 1);
                }
            }
            return None;
        }
        row = next;
        i += 1;
    }
    assert(digits.subrange(0, i - start) =~= digits);
    if row >= 1 {
        Some(row)
    } else {
        None
    }
}

/// Reads a cell as a player writes it, such as `a1`, `c4` or `h8`: the
/// column letter and the row number. Anything else is refused, and so is no
/// text at all.
pub fn parse_coordinate(coord: Option<&str>) -> (r: Result<(char, usize), &'static str>)
    ensures
        r is Ok <==> coord is Some && cell_of(coord->0.spec_bytes()) is Some,
        r matches Ok(cell) ==> Some(cell) == cell_of(coord->0.spec_bytes()) && is_column(
            cell.0 as int,
        ) && is_row(cell.1 as int),
        r matches Err(e) ==> e@ == "Invalid coordinate"@,
{
    if let Some(coord) = coord {
        let bytes = coord.as_bytes();
        if bytes.len() >= 2 {
            let col = bytes[0] as char;
            if let Some(row) = parse_row(bytes, 1) {
                if 'a' <= col && col <= 'h' && 1 <= row && row <= 8 {
                    return Ok((col, row));
                }
            }
        }
    }
    Err("Invalid coordinate")
}

} // verus!
