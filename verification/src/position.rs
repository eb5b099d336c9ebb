//! Grid addressing: cells of the fixed 4x4 board and the four cardinal
//! step directions, with boundary checks.

use vstd::prelude::*;

verus! {

/// Side length of the (square) board.
pub const BOARD_SIZE: u8 = 4;

/// Number of cells, and so of piles, on the board.
pub const NUM_PILES: usize = 16;

/// One of the four cardinal step directions.  The declaration order
/// (Right, Down, Left, Up) is the canonical enumeration order used by the
/// path enumerator.
#[derive(PartialEq, Eq, Structural, Copy, Clone, Debug, Hash, Default)]
pub enum Direction {
    #[default]
    Right,
    Down,
    Left,
    Up,
}

/// Rank of a direction in the canonical enumeration order.
pub open spec fn dir_order(d: Direction) -> int {
    match d {
        Direction::Right => 0,
        Direction::Down => 1,
        Direction::Left => 2,
        Direction::Up => 3,
    }
}

/// The exact reverse of a direction (Right <-> Left, Down <-> Up).
pub open spec fn rev_dir(d: Direction) -> Direction {
    match d {
        Direction::Right => Direction::Left,
        Direction::Down => Direction::Up,
        Direction::Left => Direction::Right,
        Direction::Up => Direction::Down,
    }
}

/// Whether a step in direction `d` from the cell with linear index `i`
/// stays on the board.
pub open spec fn can_step_at(i: int, d: Direction) -> bool {
    match d {
        Direction::Right => i % 4 < 3,
        Direction::Down => i / 4 < 3,
        Direction::Left => i % 4 > 0,
        Direction::Up => i / 4 > 0,
    }
}

/// Linear index of the cell reached by stepping from index `i` in
/// direction `d` (meaningful only when `can_step_at(i, d)` holds).
pub open spec fn step_at(i: int, d: Direction) -> int {
    match d {
        Direction::Right => i + 1,
        Direction::Down => i + 4,
        Direction::Left => i - 1,
        Direction::Up => i - 4,
    }
}

/// Whether direction `d` is a legal continuation from the cell with index
/// `end`: it stays on the board and is not the exact reverse of the step
/// taken last (`last`, if any) — no U-turns.
pub open spec fn dir_valid(end: int, last: Option<Direction>, d: Direction) -> bool {
    can_step_at(end, d) && (last matches Some(l) ==> d != rev_dir(l))
}

/// A legal step from an in-bounds cell lands on an in-bounds cell.
pub proof fn lemma_step_in_bounds(i: int, d: Direction)
    requires
        0 <= i < 16,
        can_step_at(i, d),
    ensures
        0 <= step_at(i, d) < 16,
        step_at(i, d) != i,
{
}

/// Stepping and then stepping back along the reverse direction returns to
/// the cell stepped from.
pub proof fn lemma_step_back(i: int, d: Direction)
    requires
        0 <= i < 16,
        can_step_at(i, d),
    ensures
        can_step_at(step_at(i, d), rev_dir(d)),
        step_at(step_at(i, d), rev_dir(d)) == i,
{
}

/// From every cell of the 4x4 board at least one direction is in bounds
/// and is not the reverse of `last`: one horizontal and one vertical
/// direction are always in bounds, and `last` rules out at most one of
/// the two.
pub proof fn lemma_exists_step(i: int, last: Option<Direction>)
    requires
        0 <= i < 16,
    ensures
        exists|d: Direction| #[trigger] dir_valid(i, last, d),
{
    let h = if i % 4 < 3 {
        Direction::Right
    } else {
        Direction::Left
    };
    let v = if i / 4 < 3 {
        Direction::Down
    } else {
        Direction::Up
    };
    assert(can_step_at(i, h));
    assert(can_step_at(i, v));
    if last matches Some(l) && rev_dir(l) == h {
        assert(dir_valid(i, last, v));
    } else {
        assert(dir_valid(i, last, h));
    }
}

impl Direction {
    /// The exact reverse of this direction.
    pub fn reverse(&self) -> (r: Direction)
        ensures
            r == rev_dir(*self),
    {
        match self {
            Direction::Right => Direction::Left,
            Direction::Down => Direction::Up,
            Direction::Left => Direction::Right,
            Direction::Up => Direction::Down,
        }
    }

    /// Rank of this direction in the canonical enumeration order.
    pub fn canonical_index(&self) -> (r: u8)
        ensures
            r as int == dir_order(*self),
    {
        match self {
            Direction::Right => 0,
            Direction::Down => 1,
            Direction::Left => 2,
            Direction::Up => 3,
        }
    }

    /// The direction of the given rank in the canonical enumeration order.
    pub fn from_canonical_index(i: u8) -> (r: Direction)
        requires
            i < 4,
        ensures
            dir_order(r) == i as int,
    {
        if i == 0 {
            Direction::Right
        } else if i == 1 {
            Direction::Down
        } else if i == 2 {
            Direction::Left
        } else {
            Direction::Up
        }
    }
}

/// A cell of the board, stored as a row-major linear index.
#[derive(PartialEq, Eq, Structural, Copy, Clone, Debug, Hash, Default)]
pub struct Position(u8);

impl Position {
    /// The linear index of this cell.
    pub closed spec fn idx(self) -> int {
        self.0 as int
    }

    /// The cell's index is on the board.
    pub open spec fn wf(self) -> bool {
        0 <= self.idx() < 16
    }

    /// Column of this cell.
    pub open spec fn xi(self) -> int {
        self.idx() % 4
    }

    /// Row of this cell.
    pub open spec fn yi(self) -> int {
        self.idx() / 4
    }

    pub fn from_index(i: usize) -> (r: Position)
        requires
            i < NUM_PILES,
        ensures
            r.idx() == i as int,
            r.wf(),
    {
        Position(i as u8)
    }

    pub fn from_coord(x: u8, y: u8) -> (r: Position)
        requires
            x < BOARD_SIZE,
            y < BOARD_SIZE,
        ensures
            r.idx() == x + 4 * y,
            r.wf(),
            r.xi() == x as int,
            r.yi() == y as int,
    {
        Position(x + y * BOARD_SIZE)
    }

    pub fn top_left() -> (r: Position)
        ensures
            r.idx() == 0,
            r.wf(),
    {
        Position::from_coord(0, 0)
    }

    pub fn top_right() -> (r: Position)
        ensures
            r.idx() == 12,
            r.wf(),
    {
        Position::from_coord(0, BOARD_SIZE - 1)
    }

    pub fn bottom_left() -> (r: Position)
        ensures
            r.idx() == 3,
            r.wf(),
    {
        Position::from_coord(BOARD_SIZE - 1, 0)
    }

    pub fn bottom_right() -> (r: Position)
        ensures
            r.idx() == 15,
            r.wf(),
    {
        Position::from_coord(BOARD_SIZE - 1, BOARD_SIZE - 1)
    }

    pub fn x(&self) -> (r: u8)
        ensures
            r as int == self.xi(),
    {
        self.0 % BOARD_SIZE
    }

    pub fn y(&self) -> (r: u8)
        requires
            self.wf(),
        ensures
            r as int == self.yi(),
    {
        self.0 / BOARD_SIZE
    }

    pub fn to_index(&self) -> (r: usize)
        ensures
            r as int == self.idx(),
    {
        self.0 as usize
    }

    /// True when the cell of the next index (if any) starts a new row:
    /// used by callers that lay the board out row by row.
    pub fn next_on_new_row(&self) -> (r: bool)
        requires
            self.wf(),
        ensures
            r == ((self.idx() + 1) % 4 == 0 && self.idx() + 1 < 16),
    {
        (self.0 + 1) % BOARD_SIZE == 0 && (self.0 + 1) < (NUM_PILES as u8)
    }

    /// Whether a step in direction `dir` from this cell stays on the board.
    pub fn can_step(&self, dir: Direction) -> (r: bool)
        requires
            self.wf(),
        ensures
            r == can_step_at(self.idx(), dir),
    {
        match dir {
            Direction::Right => self.x() < BOARD_SIZE - 1,
            Direction::Down => self.y() < BOARD_SIZE - 1,
            Direction::Left => self.x() > 0,
            Direction::Up => self.y() > 0,
        }
    }

    /// The cell reached by stepping from this cell in direction `dir`.
    /// Callers must pre-check with `can_step`: stepping off the board is a
    /// programming error, ruled out here by precondition.
    pub fn step(&self, dir: Direction) -> (r: Position)
        requires
            self.wf(),
            can_step_at(self.idx(), dir),
        ensures
            r.idx() == step_at(self.idx(), dir),
            r.wf(),
    {
        proof {
            lemma_step_in_bounds(self.idx(), dir);
        }
        match dir {
            Direction::Right => Position(self.0 + 1),
            Direction::Down => Position(self.0 + BOARD_SIZE),
            Direction::Left => Position(self.0 - 1),
            Direction::Up => Position(self.0 - BOARD_SIZE),
        }
    }
}

} // verus!
