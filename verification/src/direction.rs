//! The eight compass directions a grid cursor can step in.

use vstd::prelude::*;

verus! {

/// One of eight compass directions over a character grid, enumerated in
/// clockwise order starting at `Right`. Each direction carries a signed
/// (row, column) delta; the cardinal subset {Right, Down, Left, Up}
/// additionally supports a clockwise step (`next_4`).
#[derive(Clone, Copy, Debug, PartialEq, Eq, Structural)]
pub enum Direction {
    Right,
    RightDown,
    Down,
    DownLeft,
    Left,
    LeftUp,
    Up,
    UpRight,
}

impl Direction {
    /// Row component of this direction's delta.
    pub open spec fn spec_delta_row(self) -> int {
        match self {
            Direction::Right => 0,
            Direction::RightDown => 1,
            Direction::Down => 1,
            Direction::DownLeft => 1,
            Direction::Left => 0,
            Direction::LeftUp => -1,
            Direction::Up => -1,
            Direction::UpRight => -1,
        }
    }

    /// Column component of this direction's delta.
    pub open spec fn spec_delta_col(self) -> int {
        match self {
            Direction::Right => 1,
            Direction::RightDown => 1,
            Direction::Down => 0,
            Direction::DownLeft => -1,
            Direction::Left => -1,
            Direction::LeftUp => -1,
            Direction::Up => 0,
            Direction::UpRight => 1,
        }
    }

    /// The direction reflected through the origin.
    pub open spec fn spec_opposite(self) -> Direction {
        match self {
            Direction::Right => Direction::Left,
            Direction::RightDown => Direction::LeftUp,
            Direction::Down => Direction::Up,
            Direction::DownLeft => Direction::UpRight,
            Direction::Left => Direction::Right,
            Direction::LeftUp => Direction::RightDown,
            Direction::Up => Direction::Down,
            Direction::UpRight => Direction::DownLeft,
        }
    }

    /// Whether this direction belongs to the cardinal subset.
    pub open spec fn is_cardinal(self) -> bool {
        match self {
            Direction::Right | Direction::Down | Direction::Left | Direction::Up => true,
            _ => false,
        }
    }

    /// Clockwise successor within the cardinal subset.
    pub open spec fn spec_next_4(self) -> Direction {
        match self {
            Direction::Right => Direction::Down,
            Direction::Down => Direction::Left,
            Direction::Left => Direction::Up,
            _ => Direction::Right,
        }
    }

    /// All eight directions in clockwise order starting at `Right`.
    pub open spec fn seq_8() -> Seq<Direction> {
        seq![
            Direction::Right,
            Direction::RightDown,
            Direction::Down,
            Direction::DownLeft,
            Direction::Left,
            Direction::LeftUp,
            Direction::Up,
            Direction::UpRight,
        ]
    }

    /// The cardinal directions in clockwise order starting at `Right`.
    pub open spec fn seq_4() -> Seq<Direction> {
        seq![Direction::Right, Direction::Down, Direction::Left, Direction::Up]
    }

    /// The signed (row, column) delta of one step in this direction.
    pub fn delta(&self) -> (r: (i64, i64))
        ensures
            r.0 == self.spec_delta_row(),
            r.1 == self.spec_delta_col(),
    {
        match self {
            Direction::Right => (0, 1),
            Direction::RightDown => (1, 1),
            Direction::Down => (1, 0),
            Direction::DownLeft => (1, -1),
            Direction::Left => (0, -1),
            Direction::LeftUp => (-1, -1),
            Direction::Up => (-1, 0),
            Direction::UpRight => (-1, 1),
        }
    }

    /// The direction pointing the opposite way.
    pub fn opposite(&self) -> (r: Direction)
        ensures
            r == self.spec_opposite(),
    {
        match self {
            Direction::Right => Direction::Left,
            Direction::RightDown => Direction::LeftUp,
            Direction::Down => Direction::Up,
            Direction::DownLeft => Direction::UpRight,
            Direction::Left => Direction::Right,
            Direction::LeftUp => Direction::RightDown,
            Direction::Up => Direction::Down,
            Direction::UpRight => Direction::DownLeft,
        }
    }

    /// Clockwise step through the cardinal subset; defined only for cardinals.
    pub fn next_4(&self) -> (r: Direction)
        requires
            self.is_cardinal(),
        ensures
            r == self.spec_next_4(),
    {
        match self {
            Direction::Right => Direction::Down,
            Direction::Down => Direction::Left,
            Direction::Left => Direction::Up,
            _ => Direction::Right,
        }
    }

    /// All eight directions, in the order of `seq_8`.
    pub fn values_8() -> (r: Vec<Direction>)
        ensures
            r@ == Self::seq_8(),
    {
        let v = vec![
            Direction::Right,
            Direction::RightDown,
            Direction::Down,
            Direction::DownLeft,
            Direction::Left,
            Direction::LeftUp,
            Direction::Up,
            Direction::UpRight,
        ];
        proof {
            assert(v@ =~= Self::seq_8());
        }
        v
    }

    /// The four cardinal directions, in the order of `seq_4`.
    pub fn values_4() -> (r: Vec<Direction>)
        ensures
            r@ == Self::seq_4(),
    {
        let v = vec![Direction::Right, Direction::Down, Direction::Left, Direction::Up];
        proof {
            assert(v@ =~= Self::seq_4());
        }
        v
    }
}

/// Reflecting a direction through the origin twice gives it back, and the
/// deltas of a direction and its opposite cancel.
pub proof fn lemma_opposite_opposite(d: Direction)
    ensures
        d.spec_opposite().spec_opposite() == d,
        d.spec_opposite().spec_delta_row() == -d.spec_delta_row(),
        d.spec_opposite().spec_delta_col() == -d.spec_delta_col(),
{
}

/// Four clockwise steps through the cardinal subset return to the start,
/// and each step stays within the cardinal subset.
pub proof fn lemma_next_4_full_turn(d: Direction)
    requires
        d.is_cardinal(),
    ensures
        d.spec_next_4().is_cardinal(),
        d.spec_next_4().spec_next_4().spec_next_4().spec_next_4() == d,
{
}

} // verus!
