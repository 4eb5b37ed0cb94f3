use vstd::prelude::*;

verus! {

/// One of the two players of the game.
#[derive(Debug, Clone, Copy, PartialEq, Eq, Structural)]
pub enum Player {
    One,
    Two,
}

/// One cell of the board: empty, or owned by one of the players.
#[derive(Debug, Clone, Copy, PartialEq, Eq, Structural)]
pub enum Cell {
    Empty,
    Player1,
    Player2,
}

/// One cell of a piece grid.
#[derive(Debug, Clone, Copy, PartialEq, Eq, Structural)]
pub enum PieceCell {
    Empty,
    Filled,
}

/// A filled cell of the trimmed piece, as a displacement from the trimmed
/// piece's top-left corner.
#[derive(Debug, Clone, Copy, PartialEq, Eq, Structural)]
pub struct PieceOffset {
    pub dx: i32,
    pub dy: i32,
}

/// A candidate anchor together with its score.
#[derive(Debug, Clone, Copy)]
pub struct ScoredMove {
    pub x: i32,
    pub y: i32,
    pub score: i64,
}

/// The shape that trimming gives a non-empty piece's offsets: displacements
/// are non-negative, and both a zero column and a zero row displacement
/// occur, so the piece's bounding box starts exactly at the anchor.
pub open spec fn trimmed_shape(offs: Seq<PieceOffset>) -> bool {
    &&& offs.len() > 0
    &&& forall|i: int| 0 <= i < offs.len() ==> (#[trigger] offs[i]).dx >= 0 && offs[i].dy >= 0
    &&& exists|i: int| 0 <= i < offs.len() && (#[trigger] offs[i]).dx == 0
    &&& exists|i: int| 0 <= i < offs.len() && (#[trigger] offs[i]).dy == 0
}

/// The total order on scored candidates: a candidate ranks strictly before
/// another when its score is higher, or the scores tie and its y coordinate
/// is lower, or both tie and its x coordinate is lower.
pub open spec fn preferred(sa: int, xa: int, ya: int, sb: int, xb: int, yb: int) -> bool {
    sa > sb || (sa == sb && (ya < yb || (ya == yb && xa < xb)))
}

impl ScoredMove {
    pub fn new(x: i32, y: i32, score: i64) -> (m: ScoredMove)
        ensures
            m.x == x,
            m.y == y,
            m.score == score,
    {
        ScoredMove { x, y, score }
    }

    /// True when `self` ranks strictly before `other`: higher score first,
    /// then lower y, then lower x.
    pub fn ranks_before(&self, other: &ScoredMove) -> (r: bool)
        ensures
            r == preferred(
                self.score as int,
                self.x as int,
                self.y as int,
                other.score as int,
                other.x as int,
                other.y as int,
            ),
    {
        self.score > other.score || (self.score == other.score && (self.y < other.y || (self.y
            == other.y && self.x < other.x)))
    }
}

} // verus!

verus! {

impl PartialEq for ScoredMove {
    /// As in the rest of the candidate ordering, two candidates compare equal
    /// exactly when their scores are equal.
    fn eq(&self, other: &Self) -> (r: bool) {
        self.score == other.score
    }
}

impl vstd::std_specs::cmp::PartialEqSpecImpl for ScoredMove {
    open spec fn obeys_eq_spec() -> bool {
        true
    }

    open spec fn eq_spec(&self, other: &Self) -> bool {
        self.score == other.score
    }
}

impl PartialOrd for ScoredMove {
    /// Candidates are ordered so that the greatest is the preferred one:
    /// higher score first, then lower y, then lower x.
    fn partial_cmp(&self, other: &Self) -> (r: Option<core::cmp::Ordering>) {
        if self.score != other.score {
            if self.score < other.score {
                Some(core::cmp::Ordering::Less)
            } else {
                Some(core::cmp::Ordering::Greater)
            }
        } else if self.y != other.y {
            if other.y < self.y {
                Some(core::cmp::Ordering::Less)
            } else {
                Some(core::cmp::Ordering::Greater)
            }
        } else {
            if other.x < self.x {
                Some(core::cmp::Ordering::Less)
            } else if other.x > self.x {
                Some(core::cmp::Ordering::Greater)
            } else {
                Some(core::cmp::Ordering::Equal)
            }
        }
    }
}

impl vstd::std_specs::cmp::PartialOrdSpecImpl for ScoredMove {
    open spec fn obeys_partial_cmp_spec() -> bool {
        true
    }

    open spec fn partial_cmp_spec(&self, other: &Self) -> Option<core::cmp::Ordering> {
        if self.score != other.score {
            if self.score < other.score {
                Some(core::cmp::Ordering::Less)
            } else {
                Some(core::cmp::Ordering::Greater)
            }
        } else if self.y != other.y {
            if other.y < self.y {
                Some(core::cmp::Ordering::Less)
            } else {
                Some(core::cmp::Ordering::Greater)
            }
        } else {
            if other.x < self.x {
                Some(core::cmp::Ordering::Less)
            } else if other.x > self.x {
                Some(core::cmp::Ordering::Greater)
            } else {
                Some(core::cmp::Ordering::Equal)
            }
        }
    }
}

} // verus!
