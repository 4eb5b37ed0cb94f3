use vstd::prelude::*;

use crate::game_state::{GameState, MAX_DIM};
use crate::types::{trimmed_shape, Cell, PieceOffset, Player};

verus! {

impl GameState {
    /// Number of piece cells that would land on this player's own territory
    /// when the piece is anchored at `(x, y)`.
    pub open spec fn own_overlaps(self, x: int, y: int, offs: Seq<PieceOffset>) -> int
        decreases offs.len(),
    {
        if offs.len() == 0 {
            0
        } else {
            self.own_overlaps(x, y, offs.drop_last()) + {
                let o = offs.last();
                if self.in_bounds(x + o.dx, y + o.dy) && self.cell_at(x + o.dx, y + o.dy)
                    == self.my_cell() {
                    1int
                } else {
                    0int
                }
            }
        }
    }

    /// Every piece cell lands on the board.
    pub open spec fn offsets_in_bounds(self, x: int, y: int, offs: Seq<PieceOffset>) -> bool {
        forall|i: int|
            0 <= i < offs.len() ==> self.in_bounds(
                x + (#[trigger] offs[i]).dx,
                y + offs[i].dy,
            )
    }

    /// No piece cell lands on a cell owned by the opponent.
    pub open spec fn no_opponent_overlap(self, x: int, y: int, offs: Seq<PieceOffset>) -> bool {
        forall|i: int|
            0 <= i < offs.len() ==> !(self.in_bounds(x + (#[trigger] offs[i]).dx, y + offs[i].dy)
                && self.cell_at(x + offs[i].dx, y + offs[i].dy) == self.opp_cell())
    }

    /// The placement rule: the whole piece lies on the board, touches no
    /// opponent cell, and covers exactly one cell of the mover's own
    /// territory.
    pub open spec fn placement_legal(self, x: int, y: int, offs: Seq<PieceOffset>) -> bool {
        &&& self.offsets_in_bounds(x, y, offs)
        &&& self.no_opponent_overlap(x, y, offs)
        &&& self.own_overlaps(x, y, offs) == 1
    }

    /// The rectangle of anchors scanned for a piece trimmed with correction
    /// `(tox, toy)`: after the correction is subtracted the emitted anchor is
    /// non-negative and the piece's bounding box stays on the board.
    pub open spec fn scan_window(self, tox: int, toy: int, x: int, y: int) -> bool {
        &&& tox <= x <= self.board_width - self.piece_width + tox
        &&& toy <= y <= self.board_height - self.piece_height + toy
    }

    /// The trimmed piece's bounding box fits on the board at all.
    pub open spec fn piece_fits(self) -> bool {
        self.piece_width <= self.board_width && self.piece_height <= self.board_height
    }

    /// A legal anchor inside the scan window.
    pub open spec fn window_hit(
        self,
        offs: Seq<PieceOffset>,
        tox: int,
        toy: int,
        x: int,
        y: int,
    ) -> bool {
        self.scan_window(tox, toy, x, y) && self.placement_legal(x, y, offs)
    }

    /// An anchor that the bounded scan reports: as `window_hit`, behind the
    /// bounded scan's early rejection of a piece larger than the board.
    pub open spec fn bounded_scan_hit(
        self,
        offs: Seq<PieceOffset>,
        tox: int,
        toy: int,
        x: int,
        y: int,
    ) -> bool {
        self.piece_fits() && self.window_hit(offs, tox, toy, x, y)
    }

    /// An anchor that the exhaustive full-board scan reports: inside the
    /// rectangle from (0, 0) to (board_width, board_height) inclusive — a
    /// margin past the last cell — and legal.
    pub open spec fn board_scan_hit(self, offs: Seq<PieceOffset>, x: int, y: int) -> bool {
        0 <= x <= self.board_width && 0 <= y <= self.board_height && self.placement_legal(
            x,
            y,
            offs,
        )
    }

    /// Whether anchoring the trimmed piece at `(x, y)` is a legal placement.
    pub fn is_legal_move(&self, x: i32, y: i32, piece_offsets: &Vec<PieceOffset>) -> (r: bool)
        requires
            self.wf(),
        ensures
            r == self.placement_legal(x as int, y as int, piece_offsets@),
    {
        let mut own_count: usize = 0;
        let my = if self.player == Player::One {
            Cell::Player1
        } else {
            Cell::Player2
        };
        let op = if self.player == Player::One {
            Cell::Player2
        } else {
            Cell::Player1
        };
        assert(my == self.my_cell());
        assert(op == self.opp_cell());
        let n = piece_offsets.len();
        let mut i: usize = 0;
        while i < n
            invariant
                self.wf(),
                n == piece_offsets@.len(),
                i <= n,
                my == self.my_cell(),
                op == self.opp_cell(),
                own_count == self.own_overlaps(x as int, y as int, piece_offsets@.take(i as int)),
                0 <= own_count <= i,
                forall|j: int|
                    0 <= j < i ==> self.in_bounds(
                        x + (#[trigger] piece_offsets@[j]).dx,
                        y + piece_offsets@[j].dy,
                    ),
                forall|j: int|
                    0 <= j < i ==> self.cell_at(
                        x + (#[trigger] piece_offsets@[j]).dx,
                        y + piece_offsets@[j].dy,
                    ) != self.opp_cell(),
            decreases n - i,
        {
            let off = piece_offsets[i];
            let bx: i64 = x as i64 + off.dx as i64;
            let by: i64 = y as i64 + off.dy as i64;
            if bx < 0 || by < 0 || bx >= self.board_width as i64 || by >= self.board_height as i64 {
                assert(!self.in_bounds(x + piece_offsets@[i as int].dx, y + piece_offsets@[i as int].dy));
                return false;
            }
            let bxu = bx as usize;
            let byu = by as usize;
            let cell = self.board[byu][bxu];
            proof {
                lemma_own_overlaps_take_step(*self, x as int, y as int, piece_offsets@, i as int);
            }
            if cell == op {
                return false;
            }
            if cell == my {
                own_count = own_count + 1;
            }
            i = i + 1;
        }
        proof {
            assert(piece_offsets@.take(n as int) =~= piece_offsets@);
        }
        own_count == 1
    }

    /// All legal anchors inside the scan window, in row-major order (y, then
    /// x, ascending). A piece larger than the board is rejected outright.
    pub fn find_legal_moves(
        &self,
        piece_offsets: &Vec<PieceOffset>,
        trim_off_x: i32,
        trim_off_y: i32,
    ) -> (legal: Vec<(i32, i32)>)
        requires
            self.wf(),
            0 <= trim_off_x <= MAX_DIM,
            0 <= trim_off_y <= MAX_DIM,
        ensures
            forall|i: int|
                0 <= i < legal@.len() ==> self.bounded_scan_hit(
                    piece_offsets@,
                    trim_off_x as int,
                    trim_off_y as int,
                    (#[trigger] legal@[i]).0 as int,
                    legal@[i].1 as int,
                ),
            forall|x: i32, y: i32|
                self.bounded_scan_hit(
                    piece_offsets@,
                    trim_off_x as int,
                    trim_off_y as int,
                    x as int,
                    y as int,
                ) ==> legal@.contains((x, y)),
            forall|i: int, j: int|
                0 <= i < j < legal@.len() ==> ((#[trigger] legal@[i]).1 < (#[trigger] legal@[j]).1
                    || (legal@[i].1 == legal@[j].1 && legal@[i].0 < legal@[j].0)),
    {
        if self.piece_width > self.board_width || self.piece_height > self.board_height {
            let legal: Vec<(i32, i32)> = Vec::new();
            return legal;
        }
        let end_x: i32 = self.board_width as i32 - self.piece_width as i32 + trim_off_x;
        let end_y: i32 = self.board_height as i32 - self.piece_height as i32 + trim_off_y;
        self.scan_rect(piece_offsets, trim_off_x, trim_off_y, end_x, end_y)
    }

    /// Exhaustive anchor scan over the whole board, from (0, 0) up to the
    /// board dimensions inclusive: the emergency fallback when the bounded
    /// scan reports nothing. It is authoritative — for a trimmed piece it
    /// misses no legal anchor (`lemma_exhaustive_scan_complete`).
    #[allow(unused_variables)]
    pub fn emergency_move_search(
        &self,
        piece_offsets: &Vec<PieceOffset>,
        trim_off_x: i32,
        trim_off_y: i32,
    ) -> (moves: Vec<(i32, i32)>)
        requires
            self.wf(),
        ensures
            forall|i: int|
                0 <= i < moves@.len() ==> self.board_scan_hit(
                    piece_offsets@,
                    (#[trigger] moves@[i]).0 as int,
                    moves@[i].1 as int,
                ),
            forall|x: i32, y: i32|
                self.board_scan_hit(piece_offsets@, x as int, y as int) ==> moves@.contains(
                    (x, y),
                ),
            forall|i: int, j: int|
                0 <= i < j < moves@.len() ==> ((#[trigger] moves@[i]).1 < (#[trigger] moves@[j]).1
                    || (moves@[i].1 == moves@[j].1 && moves@[i].0 < moves@[j].0)),
    {
        self.scan_rect(piece_offsets, 0, 0, self.board_width as i32, self.board_height as i32)
    }

    /// One scan over a rectangle of anchors; both enumerators share it, so
    /// they cannot disagree on what counts as legal.
    fn scan_rect(
        &self,
        piece_offsets: &Vec<PieceOffset>,
        sx: i32,
        sy: i32,
        ex: i32,
        ey: i32,
    ) -> (hits: Vec<(i32, i32)>)
        requires
            self.wf(),
            0 <= sx <= 0x2000,
            0 <= sy <= 0x2000,
            ex <= 0x2000,
            ey <= 0x2000,
        ensures
            forall|i: int|
                0 <= i < hits@.len() ==> {
                    let (hx, hy) = #[trigger] hits@[i];
                    &&& sx <= hx <= ex
                    &&& sy <= hy <= ey
                    &&& self.placement_legal(hx as int, hy as int, piece_offsets@)
                },
            forall|x: i32, y: i32|
                sx <= x <= ex && sy <= y <= ey && self.placement_legal(
                    x as int,
                    y as int,
                    piece_offsets@,
                ) ==> hits@.contains((x, y)),
            forall|i: int, j: int|
                0 <= i < j < hits@.len() ==> ((#[trigger] hits@[i]).1 < (#[trigger] hits@[j]).1
                    || (hits@[i].1 == hits@[j].1 && hits@[i].0 < hits@[j].0)),
    {
        let mut hits: Vec<(i32, i32)> = Vec::new();
        let mut y: i32 = sy;
        while y <= ey
            invariant
                self.wf(),
                sy <= y <= ey + 1 || (ey < sy && y == sy),
                0 <= sx <= 0x2000,
                0 <= sy <= 0x2000,
                ex <= 0x2000,
                ey <= 0x2000,
                forall|i: int|
                    0 <= i < hits@.len() ==> {
                        let (hx, hy) = #[trigger] hits@[i];
                        &&& sx <= hx <= ex
                        &&& sy <= hy <= ey
                        &&& self.placement_legal(hx as int, hy as int, piece_offsets@)
                    },
                forall|i: int| 0 <= i < hits@.len() ==> (#[trigger] hits@[i]).1 < y,
                forall|a: i32, b: i32|
                    sx <= a <= ex && sy <= b <= ey && self.placement_legal(
                        a as int,
                        b as int,
                        piece_offsets@,
                    ) && b < y ==> hits@.contains((a, b)),
                forall|i: int, j: int|
                    0 <= i < j < hits@.len() ==> ((#[trigger] hits@[i]).1 < (#[trigger] hits@[j]).1
                        || (hits@[i].1 == hits@[j].1 && hits@[i].0 < hits@[j].0)),
            decreases ey + 1 - y,
        {
            let mut x: i32 = sx;
            while x <= ex
                invariant
                    self.wf(),
                    sy <= y <= ey,
                    sx <= x <= ex + 1 || (ex < sx && x == sx),
                    0 <= sx <= 0x2000,
                    0 <= sy <= 0x2000,
                    ex <= 0x2000,
                    ey <= 0x2000,
                    forall|i: int|
                        0 <= i < hits@.len() ==> {
                            let (hx, hy) = #[trigger] hits@[i];
                            &&& sx <= hx <= ex
                            &&& sy <= hy <= ey
                            &&& self.placement_legal(hx as int, hy as int, piece_offsets@)
                        },
                    forall|i: int|
                        0 <= i < hits@.len() ==> ((#[trigger] hits@[i]).1 < y || (hits@[i].1 == y
                            && hits@[i].0 < x)),
                    forall|a: i32, b: i32|
                        sx <= a <= ex && sy <= b <= ey && self.placement_legal(
                            a as int,
                            b as int,
                            piece_offsets@,
                        ) && (b < y || (b == y && a < x)) ==> hits@.contains((a, b)),
                    forall|i: int, j: int|
                        0 <= i < j < hits@.len() ==> ((#[trigger] hits@[i]).1
                            < (#[trigger] hits@[j]).1 || (hits@[i].1 == hits@[j].1 && hits@[i].0
                            < hits@[j].0)),
                decreases ex + 1 - x,
            {
                let is_hit = self.is_legal_move(x, y, piece_offsets);
                let ghost prev_hits = hits@;
                if is_hit {
                    hits.push((x, y));
                }
                proof {
                    assert forall|a: i32, b: i32|
                        sx <= a <= ex && sy <= b <= ey && self.placement_legal(
                            a as int,
                            b as int,
                            piece_offsets@,
                        ) && (b < y || (b == y && a < x + 1)) implies hits@.contains((a, b)) by {
                        if b == y && a == x {
                            assert(is_hit);
                            assert(hits@[hits@.len() - 1] == (a, b));
                        } else {
                            assert(prev_hits.contains((a, b)));
                            let w = choose|w: int|
                                0 <= w < prev_hits.len() && prev_hits[w] == (a, b);
                            assert(hits@[w] == (a, b));
                        }
                    }
                }
                x = x + 1;
            }
            y = y + 1;
        }
        hits
    }
}

/// Unrolls one step of `own_overlaps` over a growing prefix of the offsets.
pub proof fn lemma_own_overlaps_take_step(
    s: GameState,
    x: int,
    y: int,
    offs: Seq<PieceOffset>,
    i: int,
)
    requires
        0 <= i < offs.len(),
    ensures
        s.own_overlaps(x, y, offs.take(i + 1)) == s.own_overlaps(x, y, offs.take(i)) + {
            let o = offs[i];
            if s.in_bounds(x + o.dx, y + o.dy) && s.cell_at(x + o.dx, y + o.dy) == s.my_cell() {
                1int
            } else {
                0int
            }
        },
{
    assert(offs.take(i + 1).drop_last() =~= offs.take(i));
    assert(offs.take(i + 1).last() == offs[i]);
}

/// The placement rule, case by case: an anchor that hangs a piece cell off
/// the board is rejected; one that overlaps the opponent is rejected; zero
/// own-overlaps are rejected; two or more own-overlaps are rejected; exactly
/// one own-overlap with no opponent overlap and every cell on the board is
/// accepted.
pub proof fn lemma_legality_cases(s: GameState, x: int, y: int, offs: Seq<PieceOffset>)
    ensures
        (exists|i: int|
            0 <= i < offs.len() && !s.in_bounds(x + (#[trigger] offs[i]).dx, y + offs[i].dy))
            ==> !s.placement_legal(x, y, offs),
        (exists|i: int|
            0 <= i < offs.len() && s.in_bounds(x + (#[trigger] offs[i]).dx, y + offs[i].dy)
                && s.cell_at(x + offs[i].dx, y + offs[i].dy) == s.opp_cell()) ==> !s.placement_legal(
            x,
            y,
            offs,
        ),
        s.own_overlaps(x, y, offs) == 0 ==> !s.placement_legal(x, y, offs),
        s.own_overlaps(x, y, offs) >= 2 ==> !s.placement_legal(x, y, offs),
        (s.offsets_in_bounds(x, y, offs) && s.no_opponent_overlap(x, y, offs) && s.own_overlaps(
            x,
            y,
            offs,
        ) == 1) ==> s.placement_legal(x, y, offs),
{
}

/// The bounded scan is sound, and for a trimmed piece it reports only
/// anchors that the exhaustive scan reports too: every bounded-scan anchor
/// is legal, and every legal anchor of a trimmed piece lies inside the
/// exhaustive scan's rectangle, so the exhaustive result is a superset of
/// the bounded one.
pub proof fn lemma_scan_soundness(
    s: GameState,
    offs: Seq<PieceOffset>,
    tox: int,
    toy: int,
    x: int,
    y: int,
)
    ensures
        s.bounded_scan_hit(offs, tox, toy, x, y) ==> s.placement_legal(x, y, offs),
        trimmed_shape(offs) && s.bounded_scan_hit(offs, tox, toy, x, y) ==> s.board_scan_hit(
            offs,
            x,
            y,
        ),
{
    lemma_exhaustive_scan_complete(s, offs, x, y);
}

/// The exhaustive scan is authoritative: for a trimmed piece, every legal
/// anchor lies inside the scanned rectangle, so no legal move is ever
/// missed.
pub proof fn lemma_exhaustive_scan_complete(s: GameState, offs: Seq<PieceOffset>, x: int, y: int)
    ensures
        trimmed_shape(offs) && s.placement_legal(x, y, offs) ==> s.board_scan_hit(offs, x, y),
{
    if trimmed_shape(offs) && s.placement_legal(x, y, offs) {
        let i0 = choose|i: int| 0 <= i < offs.len() && (#[trigger] offs[i]).dx == 0;
        assert(s.in_bounds(x + offs[i0].dx, y + offs[i0].dy));
        let j0 = choose|j: int| 0 <= j < offs.len() && (#[trigger] offs[j]).dy == 0;
        assert(s.in_bounds(x + offs[j0].dx, y + offs[j0].dy));
    }
}

} // verus!
