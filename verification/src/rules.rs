//! What a move captures, stated over the disks of a board as a map from cells
//! to disks. Nothing here runs: these are the definitions that the board and
//! the game are held to, and the facts about them that the proofs need.

use crate::board::Disk;
use crate::position::Coordinate;
use vstd::prelude::*;

verus! {

/// The disks of a board: the cells that hold a disk, each with its disk.
pub type Disks = Map<Coordinate, Disk>;

/// The disk on cell `c`, if there is one.
pub open spec fn disk_at(m: Disks, c: Coordinate) -> Option<Disk> {
    if m.dom().contains(c) {
        Some(m[c])
    } else {
        None
    }
}

/// Whether every disk lies on a cell of the board.
pub open spec fn on_board(m: Disks) -> bool {
    forall|c: Coordinate| m.dom().contains(c) ==> c.wf()
}

/// One of the eight directions in which a line of disks can run.
pub open spec fn is_direction(dx: int, dy: int) -> bool {
    -1 <= dx <= 1 && -1 <= dy <= 1 && !(dx == 0 && dy == 0)
}

/// The cell `k` steps from `pos` in the direction `(dx, dy)`, if the board
/// reaches that far.
pub open spec fn ray(pos: Coordinate, dx: int, dy: int, k: int) -> Option<Coordinate> {
    pos.step(k * dx, k * dy)
}

/// Walking from step `k` away from `pos`: the step at which the first disk
/// equal to `disk` lies, if only disks of the other colour lie before it.
/// `None` where the walk meets an empty cell or the edge of the board first.
pub open spec fn closing(m: Disks, pos: Coordinate, disk: Disk, dx: int, dy: int, k: int) -> Option<
    int,
>
    decreases 9 - k,
{
    if k < 1 || k > 8 {
        None
    } else {
        match ray(pos, dx, dy, k) {
            None => None,
            Some(c) => match disk_at(m, c) {
                None => None,
                Some(d) => if d == disk {
                    Some(k)
                } else {
                    closing(m, pos, disk, dx, dy, k + 1)
                },
            },
        }
    }
}

/// How many disks a `disk` placed on `pos` captures in the direction
/// `(dx, dy)`: the disks of the other colour in an unbroken line from `pos`
/// that ends in a disk equal to `disk`.
pub open spec fn captured_along(m: Disks, pos: Coordinate, disk: Disk, dx: int, dy: int) -> int {
    match closing(m, pos, disk, dx, dy, 1) {
        Some(e) => e - 1,
        None => 0,
    }
}

/// How many disks a `disk` placed on `pos` captures in all: what it captures
/// in each of the eight directions.
pub open spec fn captured(m: Disks, pos: Coordinate, disk: Disk) -> int {
    captured_along(m, pos, disk, -1, -1) + captured_along(m, pos, disk, -1, 0) + captured_along(
        m,
        pos,
        disk,
        -1,
        1,
    ) + captured_along(m, pos, disk, 0, -1) + captured_along(m, pos, disk, 0, 1) + captured_along(
        m,
        pos,
        disk,
        1,
        -1,
    ) + captured_along(m, pos, disk, 1, 0) + captured_along(m, pos, disk, 1, 1)
}

/// Whether a `disk` placed on `pos` captures the disk on cell `c`.
pub open spec fn captures(m: Disks, pos: Coordinate, disk: Disk, c: Coordinate) -> bool {
    exists|dx: int, dy: int, k: int|
        is_direction(dx, dy) && 1 <= k <= captured_along(m, pos, disk, dx, dy) && #[trigger] ray(
            pos,
            dx,
            dy,
            k,
        ) == Some(c)
}

/// Whether `disk` may be placed on `pos`: the cell is empty and the disk
/// captures something.
pub open spec fn legal(m: Disks, pos: Coordinate, disk: Disk) -> bool {
    pos.wf() && !m.dom().contains(pos) && captured(m, pos, disk) > 0
}

/// Whether the player of `disk` has a move.
pub open spec fn can_move(m: Disks, disk: Disk) -> bool {
    exists|pos: Coordinate| #[trigger] legal(m, pos, disk)
}

/// The disks after `disk` was placed on `pos`: the new disk, every captured
/// disk turned to its colour, and all others as they were.
pub open spec fn moved(m: Disks, pos: Coordinate, disk: Disk) -> Disks {
    Map::new(
        |c: Coordinate| c == pos || m.dom().contains(c),
        |c: Coordinate|
            if c == pos || captures(m, pos, disk, c) {
                disk
            } else {
                m[c]
            },
    )
}

/// The disks with the one on `c`, if any, turned over.
pub open spec fn toggled(m: Disks, c: Coordinate) -> Disks {
    if m.dom().contains(c) {
        m.insert(c, m[c].flipped())
    } else {
        m
    }
}

/// The disks with those on the cells of `s` turned over, last cell first.
pub open spec fn restored(m: Disks, s: Seq<Coordinate>) -> Disks
    decreases s.len(),
{
    if s.len() == 0 {
        m
    } else {
        restored(toggled(m, s.last()), s.drop_last())
    }
}

/// How many of the first `n` cells, counted row by row from `a1`, hold a
/// disk equal to `disk`.
pub open spec fn count_below(m: Disks, disk: Disk, n: int) -> int
    decreases n,
{
    if n <= 0 {
        0
    } else {
        count_below(m, disk, n - 1) + if disk_at(m, Coordinate::nth(n - 1)) == Some(disk) {
            1int
        } else {
            0int
        }
    }
}

/// How many disks equal to `disk` lie on the board.
pub open spec fn count(m: Disks, disk: Disk) -> int {
    count_below(m, disk, 64)
}

/// One for a cell that holds `disk`, nought for any other.
pub open spec fn holds(m: Disks, c: Coordinate, disk: Disk) -> int {
    if disk_at(m, c) == Some(disk) {
        1
    } else {
        0
    }
}

/// Two boards that differ on the cell `c` at most differ in their counts by
/// what lies on `c`.
pub proof fn lemma_count_one_cell(m1: Disks, m2: Disks, c: Coordinate, disk: Disk)
    requires
        c.wf(),
        forall|o: Coordinate| o.wf() && o != c ==> disk_at(m1, o) == disk_at(m2, o),
    ensures
        count(m2, disk) - holds(m2, c, disk) == count(m1, disk) - holds(m1, c, disk),
{
    lemma_count_below_one_cell(m1, m2, c, disk, 64);
    c.lemma_nth_index();
}

/// The same of the first `n` cells: the counts differ only once the cell is
/// among them.
proof fn lemma_count_below_one_cell(m1: Disks, m2: Disks, c: Coordinate, disk: Disk, n: int)
    requires
        c.wf(),
        0 <= n <= 64,
        forall|o: Coordinate| o.wf() && o != c ==> disk_at(m1, o) == disk_at(m2, o),
    ensures
        count_below(m2, disk, n) - count_below(m1, disk, n) == if c.spec_index() < n {
            holds(m2, c, disk) - holds(m1, c, disk)
        } else {
            0
        },
    decreases n,
{
    if n > 0 {
        lemma_count_below_one_cell(m1, m2, c, disk, n - 1);
        Coordinate::lemma_index_nth(n - 1);
        c.lemma_nth_index();
    }
}

/// A board without disks counts none.
pub proof fn lemma_count_empty(disk: Disk)
    ensures
        count(Map::<Coordinate, Disk>::empty(), disk) == 0,
{
    lemma_count_below_empty(disk, 64);
}

/// The same of the first `n` cells.
proof fn lemma_count_below_empty(disk: Disk, n: int)
    ensures
        count_below(Map::<Coordinate, Disk>::empty(), disk, n) == 0,
    decreases n,
{
    if n > 0 {
        lemma_count_below_empty(disk, n - 1);
    }
}

/// No more disks of one colour than cells, and with the other colour no more
/// than cells either.
pub proof fn lemma_count_bounds(m: Disks)
    ensures
        0 <= count(m, Disk::Black),
        0 <= count(m, Disk::White),
        count(m, Disk::Black) + count(m, Disk::White) <= 64,
{
    lemma_count_below_bounds(m, 64);
}

/// The same of the first `n` cells: no more disks than cells.
proof fn lemma_count_below_bounds(m: Disks, n: int)
    requires
        0 <= n,
    ensures
        0 <= count_below(m, Disk::Black, n),
        0 <= count_below(m, Disk::White, n),
        count_below(m, Disk::Black, n) + count_below(m, Disk::White, n) <= n,
    decreases n,
{
    if n > 0 {
        lemma_count_below_bounds(m, n - 1);
    }
}

/// Turning a disk over twice leaves it as it was.
pub proof fn lemma_toggled_twice(m: Disks, c: Coordinate)
    ensures
        toggled(toggled(m, c), c) == m,
{
    assert(toggled(toggled(m, c), c) =~= m);
}

/// Turning back what was turned over last, and then the rest, restores what
/// the rest alone would restore before that last turn.
pub proof fn lemma_restored_push(m: Disks, s: Seq<Coordinate>, c: Coordinate)
    ensures
        restored(toggled(m, c), s.push(c)) == restored(m, s),
{
    lemma_toggled_twice(m, c);
    assert(s.push(c).drop_last() =~= s);
    assert(s.push(c).last() == c);
}

/// The column step of the direction with number `i`, where the directions
/// are numbered from the left column to the right and in each from top to
/// bottom: 0 is up and to the left, 8 down and to the right, and 4 is no
/// direction at all.
pub open spec fn nth_dx(i: int) -> int {
    i / 3 - 1
}

/// The row step of the direction with number `i`.
pub open spec fn nth_dy(i: int) -> int {
    i % 3 - 1
}

/// How many disks a `disk` placed on `pos` captures in the directions with a
/// number below `i`.
pub open spec fn captured_before(m: Disks, pos: Coordinate, disk: Disk, i: int) -> int
    decreases i,
{
    if i <= 0 {
        0
    } else if i == 5 {
        captured_before(m, pos, disk, i - 1)
    } else {
        captured_before(m, pos, disk, i - 1) + captured_along(
            m,
            pos,
            disk,
            nth_dx(i - 1),
            nth_dy(i - 1),
        )
    }
}

/// The captures in the directions below 9 are all the captures.
pub proof fn lemma_captured_before_all(m: Disks, pos: Coordinate, disk: Disk)
    ensures
        captured_before(m, pos, disk, 9) == captured(m, pos, disk),
{
    reveal_with_fuel(captured_before, 10);
}

/// Minus one, nought or one, as `d` is negative, nought or positive.
pub open spec fn sign(d: int) -> int {
    if d < 0 {
        -1
    } else if d > 0 {
        1
    } else {
        0
    }
}

/// How far `d` is from nought.
pub open spec fn dist(d: int) -> int {
    if d < 0 {
        -d
    } else {
        d
    }
}

/// The direction in which `c` lies from `pos` and how many steps away, where
/// `c` lies on one of the eight lines through `pos`.
pub open spec fn line(pos: Coordinate, c: Coordinate) -> Option<(int, int, int)> {
    let ddx = c.x() - pos.x();
    let ddy = c.y() - pos.y();
    if ddx == 0 && ddy == 0 {
        None
    } else if ddx == 0 {
        Some((0, sign(ddy), dist(ddy)))
    } else if ddy == 0 || ddx == ddy || ddx == -ddy {
        Some((sign(ddx), sign(ddy), dist(ddx)))
    } else {
        None
    }
}

/// Whether `c` is one of the first `n` cells from `pos` in the direction
/// `(dx, dy)`.
pub open spec fn within(pos: Coordinate, dx: int, dy: int, n: int, c: Coordinate) -> bool {
    line(pos, c) matches Some(l) && l.0 == dx && l.1 == dy && l.2 <= n
}

/// Whether a `disk` placed on `pos` captures the disk on `c` in a direction
/// with a number below `i`.
pub open spec fn taken(m: Disks, pos: Coordinate, disk: Disk, c: Coordinate, i: int) -> bool {
    line(pos, c) matches Some(l) && (l.0 + 1) * 3 + (l.1 + 1) < i && l.2 <= captured_along(
        m,
        pos,
        disk,
        l.0,
        l.1,
    )
}

/// A step of `k` in a direction of one or none is `k`, `-k` or nought.
pub proof fn lemma_mul_unit(k: int, d: int)
    requires
        -1 <= d <= 1,
    ensures
        k * d == if d == 1 {
            k
        } else if d == -1 {
            -k
        } else {
            0
        },
{
    assert(k * 1 == k && k * 0 == 0 && k * (-1) == -k) by (nonlinear_arith);
}

/// The cell `k` steps from `pos` in a direction is the one cell that lies in
/// that direction from `pos`, `k` steps away.
pub proof fn lemma_ray_line(pos: Coordinate, dx: int, dy: int, k: int, c: Coordinate)
    requires
        pos.wf(),
        is_direction(dx, dy),
        k >= 1,
    ensures
        ray(pos, dx, dy, k) == Some(c) <==> c.wf() && line(pos, c) == Some((dx, dy, k)),
{
    lemma_mul_unit(k, dx);
    lemma_mul_unit(k, dy);
    let col = pos.spec_col() as int + k * dx;
    let row = pos.spec_row() as int + k * dy;
    if ray(pos, dx, dy, k) == Some(c) {
        Coordinate::lemma_at_parts(col, row);
    }
    if c.wf() && line(pos, c) == Some((dx, dy, k)) {
        c.lemma_parts_at();
    }
}

/// No ray reaches further than seven steps.
pub proof fn lemma_ray_short(pos: Coordinate, dx: int, dy: int, k: int)
    requires
        pos.wf(),
        is_direction(dx, dy),
        k >= 8,
    ensures
        ray(pos, dx, dy, k) is None,
{
    lemma_mul_unit(k, dx);
    lemma_mul_unit(k, dy);
}

/// What a move captures, cell by cell: the cells on a line from `pos` that
/// lie no further away than the line's captures reach.
pub proof fn lemma_captures(m: Disks, pos: Coordinate, disk: Disk, c: Coordinate)
    requires
        pos.wf(),
    ensures
        captures(m, pos, disk, c) <==> c.wf() && taken(m, pos, disk, c, 9),
{
    if captures(m, pos, disk, c) {
        let (dx, dy, k) = choose|dx: int, dy: int, k: int|
            is_direction(dx, dy) && 1 <= k <= captured_along(m, pos, disk, dx, dy) && #[trigger] ray(
                pos,
                dx,
                dy,
                k,
            ) == Some(c);
        lemma_ray_line(pos, dx, dy, k, c);
    }
    if c.wf() && taken(m, pos, disk, c, 9) {
        let l = line(pos, c)->0;
        lemma_ray_line(pos, l.0, l.1, l.2, c);
        assert(ray(pos, l.0, l.1, l.2) == Some(c));
    }
}

/// What lies off a ray does not change what the ray captures.
pub proof fn lemma_closing_agrees(
    m1: Disks,
    m2: Disks,
    pos: Coordinate,
    disk: Disk,
    dx: int,
    dy: int,
    k: int,
)
    requires
        pos.wf(),
        is_direction(dx, dy),
        k >= 1,
        forall|c: Coordinate|
            c.wf() && #[trigger] within(pos, dx, dy, 8, c) ==> disk_at(m1, c) == disk_at(m2, c),
    ensures
        closing(m1, pos, disk, dx, dy, k) == closing(m2, pos, disk, dx, dy, k),
    decreases 9 - k,
{
    if k <= 8 {
        match ray(pos, dx, dy, k) {
            None => {},
            Some(c) => {
                lemma_ray_line(pos, dx, dy, k, c);
                assert(within(pos, dx, dy, 8, c));
                lemma_closing_agrees(m1, m2, pos, disk, dx, dy, k + 1);
            },
        }
    }
}

/// A line from the new disk that does not end in a disk of its colour keeps
/// every disk on it as it was.
pub proof fn lemma_open_line_unchanged(
    m: Disks,
    pos: Coordinate,
    disk: Disk,
    dx: int,
    dy: int,
    k: int,
    c: Coordinate,
)
    requires
        pos.wf(),
        is_direction(dx, dy),
        closing(m, pos, disk, dx, dy, 1) is None,
        k >= 1,
        ray(pos, dx, dy, k) == Some(c),
    ensures
        disk_at(moved(m, pos, disk), c) == disk_at(m, c),
{
    lemma_ray_line(pos, dx, dy, k, c);
    lemma_captures(m, pos, disk, c);
    pos.lemma_same_parts(pos);
}

/// The cells among the first `n`, counted row by row, that hold a disk.
pub open spec fn occupied_below(m: Disks, n: int) -> Set<Coordinate> {
    Set::new(|c: Coordinate| c.wf() && c.spec_index() < n && m.dom().contains(c))
}

/// The black and the white disks together are the disks on the board: as
/// many as there are occupied cells.
pub proof fn lemma_counts_cover(m: Disks)
    requires
        on_board(m),
    ensures
        m.dom().finite(),
        count(m, Disk::Black) + count(m, Disk::White) == m.dom().len(),
{
    lemma_counts_cover_below(m, 64);
    assert(m.dom() =~= occupied_below(m, 64)) by {
        assert forall|c: Coordinate| m.dom().contains(c) implies c.spec_index() < 64 by {
            c.lemma_nth_index();
        }
    }
}

/// The same of the first `n` cells.
proof fn lemma_counts_cover_below(m: Disks, n: int)
    requires
        0 <= n <= 64,
    ensures
        occupied_below(m, n).finite(),
        count_below(m, Disk::Black, n) + count_below(m, Disk::White, n) == occupied_below(
            m,
            n,
        ).len(),
    decreases n,
{
    if n == 0 {
        assert(occupied_below(m, 0) =~= Set::<Coordinate>::empty()) by {
            assert forall|c: Coordinate| !occupied_below(m, 0).contains(c) by {
                if c.wf() {
                    c.lemma_nth_index();
                }
            }
        }
    } else {
        lemma_counts_cover_below(m, n - 1);
        Coordinate::lemma_index_nth(n - 1);
        let c = Coordinate::nth(n - 1);
        assert forall|o: Coordinate| o.wf() && o.spec_index() == n - 1 implies o == c by {
            o.lemma_nth_index();
        }
        if m.dom().contains(c) {
            assert(occupied_below(m, n) =~= occupied_below(m, n - 1).insert(c));
        } else {
            assert(occupied_below(m, n) =~= occupied_below(m, n - 1));
        }
    }
}

/// Nothing is captured less than nought times: a move that captures in one
/// direction captures at least as much in all.
pub proof fn lemma_captured_some(m: Disks, pos: Coordinate, disk: Disk, dx: int, dy: int)
    requires
        is_direction(dx, dy),
    ensures
        0 <= captured_along(m, pos, disk, dx, dy) <= captured(m, pos, disk),
{
    lemma_closing_from(m, pos, disk, -1, -1, 1);
    lemma_closing_from(m, pos, disk, -1, 0, 1);
    lemma_closing_from(m, pos, disk, -1, 1, 1);
    lemma_closing_from(m, pos, disk, 0, -1, 1);
    lemma_closing_from(m, pos, disk, 0, 1, 1);
    lemma_closing_from(m, pos, disk, 1, -1, 1);
    lemma_closing_from(m, pos, disk, 1, 0, 1);
    lemma_closing_from(m, pos, disk, 1, 1, 1);
}

/// A line closes no earlier than the walk along it starts.
proof fn lemma_closing_from(m: Disks, pos: Coordinate, disk: Disk, dx: int, dy: int, k: int)
    ensures
        closing(m, pos, disk, dx, dy, k) matches Some(e) ==> e >= k,
    decreases 9 - k,
{
    if 1 <= k <= 8 {
        lemma_closing_from(m, pos, disk, dx, dy, k + 1);
    }
}

} // verus!
