use vstd::prelude::*;

use crate::counting::grid_count;
use crate::distance::dm_at;
use crate::game_state::GameState;
use crate::scoring::cell_eq;
use crate::types::{Cell, PieceOffset, Player, ScoredMove};

verus! {

impl GameState {
    /// Blocking value of a candidate: for every claimed cell within distance
    /// four of the opponent, five minus that distance.
    pub open spec fn blocking_sum(
        self,
        dm: Seq<Vec<i32>>,
        x: int,
        y: int,
        offs: Seq<PieceOffset>,
    ) -> int
        decreases offs.len(),
    {
        if offs.len() == 0 {
            0
        } else {
            self.blocking_sum(dm, x, y, offs.drop_last()) + {
                let o = offs.last();
                if self.claims_at(x, y, o) && dm_at(dm, x + o.dx, y + o.dy) != -1 && dm_at(
                    dm,
                    x + o.dx,
                    y + o.dy,
                ) <= 4 {
                    5 - dm_at(dm, x + o.dx, y + o.dy)
                } else {
                    0int
                }
            }
        }
    }

    /// The secondary criterion that picks among the top candidates, by game
    /// phase: before 30% of the board is filled, expansion room; between 30%
    /// and 70%, raw territory capture when behind, otherwise capture balanced
    /// with blocking; past 70%, capture above all with expansion room as the
    /// tie factor.
    pub open spec fn strategic_criterion(
        self,
        dm: Seq<Vec<i32>>,
        offs: Seq<PieceOffset>,
        mx: int,
        my: int,
    ) -> int {
        let my_t = grid_count(self.board@, cell_eq(self.my_cell()));
        let op_t = grid_count(self.board@, cell_eq(self.opp_cell()));
        let total = self.board_width * self.board_height;
        if 10 * (my_t + op_t) < 3 * total {
            self.liberties_sum(mx, my, offs)
        } else if 10 * (my_t + op_t) < 7 * total {
            if my_t < op_t {
                self.cells_gained(mx, my, offs)
            } else {
                self.cells_gained(mx, my, offs) * 100 + self.blocking_sum(dm, mx, my, offs) * 50
            }
        } else {
            self.cells_gained(mx, my, offs) * 1000 + self.liberties_sum(mx, my, offs) * 100
        }
    }

    /// Evaluate the strategic criterion of anchoring at `(mx, my)`.
    fn strategic_criterion_at(
        &self,
        dm: &Vec<Vec<i32>>,
        offs: &Vec<PieceOffset>,
        mx: i32,
        my: i32,
    ) -> (c: i64)
        requires
            self.wf(),
            dm@.len() == self.board_height,
            forall|r: int| 0 <= r < dm@.len() ==> (#[trigger] dm@[r])@.len() == self.board_width,
            offs@.len() <= 0x1000000,
        ensures
            c == self.strategic_criterion(dm@, offs@, mx as int, my as int),
    {
        let my_t = self.count_my_territory();
        let op_t = self.count_opponent_territory();
        proof {
            assert(self.board_width * self.board_height <= 0x1000 * 0x1000) by (nonlinear_arith)
                requires
                    0 <= self.board_width <= 0x1000,
                    0 <= self.board_height <= 0x1000,
            ;
        }
        let occ: i64 = my_t as i64 + op_t as i64;
        let total: i64 = (self.board_width * self.board_height) as i64;

        let mut gained: i64 = 0;
        let mut lib: i64 = 0;
        let mut blocking: i64 = 0;
        let n = offs.len();
        let mut i: usize = 0;
        while i < n
            invariant
                self.wf(),
                n == offs@.len(),
                i <= n,
                n <= 0x1000000,
                dm@.len() == self.board_height,
                forall|r: int|
                    0 <= r < dm@.len() ==> (#[trigger] dm@[r])@.len() == self.board_width,
                gained == self.cells_gained(mx as int, my as int, offs@.take(i as int)),
                lib == self.liberties_sum(mx as int, my as int, offs@.take(i as int)),
                blocking == self.blocking_sum(dm@, mx as int, my as int, offs@.take(i as int)),
                0 <= gained <= i,
                0 <= lib <= 4 * i,
                0 <= blocking <= i * 0x100000000,
            decreases n - i,
        {
            let off = offs[i];
            proof {
                crate::scoring::lemma_score_terms_take_step(
                    *self,
                    dm@,
                    mx as int,
                    my as int,
                    offs@,
                    i as int,
                );
                lemma_blocking_sum_take_step(*self, dm@, mx as int, my as int, offs@, i as int);
                assert((i + 1) * 0x100000000int == i * 0x100000000 + 0x100000000);
            }
            let bx = mx as i64 + off.dx as i64;
            let by = my as i64 + off.dy as i64;
            if bx >= 0 && by >= 0 && bx < self.board_width as i64 && by < self.board_height as i64 {
                let bxu = bx as usize;
                let byu = by as usize;
                if self.board[byu][bxu] == Cell::Empty {
                    gained = gained + 1;
                    let l = self.count_empty_neighbors(bxu, byu);
                    lib = lib + l as i64;
                    let d = dm[byu][bxu];
                    if d != -1 && d <= 4 {
                        blocking = blocking + (5i64 - d as i64);
                    }
                }
            }
            i = i + 1;
        }
        proof {
            assert(offs@.take(n as int) =~= offs@);
            assert(blocking <= 0x100000000000000) by (nonlinear_arith)
                requires
                    blocking <= (n as int) * 0x100000000,
                    0 <= n <= 0x1000000,
            ;
            assert(0 <= gained * 100 <= 1000 * 0x1000000 && 0 <= gained * 1000 <= 1000 * 0x1000000)
                by (nonlinear_arith)
                requires
                    0 <= gained <= 0x1000000,
            ;
            assert(0 <= blocking * 50 <= 50 * 0x100000000000000) by (nonlinear_arith)
                requires
                    0 <= blocking <= 0x100000000000000,
            ;
            assert(0 <= lib * 100 <= 400 * 0x1000000) by (nonlinear_arith)
                requires
                    0 <= lib <= 4 * 0x1000000,
            ;
        }

        if 10 * occ < 3 * total {
            lib
        } else if 10 * occ < 7 * total {
            if my_t < op_t {
                gained
            } else {
                gained * 100 + blocking * 50
            }
        } else {
            gained * 1000 + lib * 100
        }
    }

    /// Pick among the top five scored candidates by the phase-dependent
    /// strategic criterion: the first candidate whose criterion strictly
    /// exceeds every earlier one and at least matches every later one, or the
    /// first candidate outright when no criterion is positive.
    pub fn select_strategic_move(
        &self,
        scored_moves: &Vec<ScoredMove>,
        distance_map: &Vec<Vec<i32>>,
        piece_offsets: &Vec<PieceOffset>,
    ) -> (m: ScoredMove)
        requires
            self.wf(),
            scored_moves@.len() >= 1,
            distance_map@.len() == self.board_height,
            forall|r: int|
                0 <= r < distance_map@.len() ==> (#[trigger] distance_map@[r])@.len()
                    == self.board_width,
            piece_offsets@.len() <= 0x1000000,
        ensures
            ({
                let n = if scored_moves@.len() < 5 {
                    scored_moves@.len() as int
                } else {
                    5int
                };
                ||| ((forall|j: int|
                    0 <= j < n ==> self.strategic_criterion(
                        distance_map@,
                        piece_offsets@,
                        (#[trigger] scored_moves@[j]).x as int,
                        scored_moves@[j].y as int,
                    ) <= 0) && m == scored_moves@[0])
                ||| (exists|j: int|
                    {
                        &&& 0 <= j < n
                        &&& m == scored_moves@[j]
                        &&& #[trigger] self.strategic_criterion(
                            distance_map@,
                            piece_offsets@,
                            scored_moves@[j].x as int,
                            scored_moves@[j].y as int,
                        ) > 0
                        &&& forall|i: int|
                            0 <= i < j ==> self.strategic_criterion(
                                distance_map@,
                                piece_offsets@,
                                (#[trigger] scored_moves@[i]).x as int,
                                scored_moves@[i].y as int,
                            ) < self.strategic_criterion(
                                distance_map@,
                                piece_offsets@,
                                scored_moves@[j].x as int,
                                scored_moves@[j].y as int,
                            )
                        &&& forall|i: int|
                            j <= i < n ==> self.strategic_criterion(
                                distance_map@,
                                piece_offsets@,
                                (#[trigger] scored_moves@[i]).x as int,
                                scored_moves@[i].y as int,
                            ) <= self.strategic_criterion(
                                distance_map@,
                                piece_offsets@,
                                scored_moves@[j].x as int,
                                scored_moves@[j].y as int,
                            )
                    })
            }),
    {
        let n = if scored_moves.len() < 5 {
            scored_moves.len()
        } else {
            5
        };
        let mut best = scored_moves[0];
        let mut best_crit: i64 = 0;
        let ghost mut bi: int = -1;
        let mut idx: usize = 0;
        while idx < n
            invariant
                self.wf(),
                scored_moves@.len() >= 1,
                n == if scored_moves@.len() < 5 {
                    scored_moves@.len() as int
                } else {
                    5int
                },
                idx <= n,
                distance_map@.len() == self.board_height,
                forall|r: int|
                    0 <= r < distance_map@.len() ==> (#[trigger] distance_map@[r])@.len()
                        == self.board_width,
                piece_offsets@.len() <= 0x1000000,
                bi == -1 || 0 <= bi < idx,
                bi == -1 ==> (best == scored_moves@[0] && best_crit == 0 && forall|i: int|
                    0 <= i < idx ==> self.strategic_criterion(
                        distance_map@,
                        piece_offsets@,
                        (#[trigger] scored_moves@[i]).x as int,
                        scored_moves@[i].y as int,
                    ) <= 0),
                bi >= 0 ==> {
                    &&& 0 <= bi < idx
                    &&& best == scored_moves@[bi]
                    &&& best_crit == self.strategic_criterion(
                        distance_map@,
                        piece_offsets@,
                        scored_moves@[bi].x as int,
                        scored_moves@[bi].y as int,
                    )
                    &&& best_crit > 0
                    &&& forall|i: int|
                        0 <= i < bi ==> self.strategic_criterion(
                            distance_map@,
                            piece_offsets@,
                            (#[trigger] scored_moves@[i]).x as int,
                            scored_moves@[i].y as int,
                        ) < best_crit
                    &&& forall|i: int|
                        bi < i < idx ==> self.strategic_criterion(
                            distance_map@,
                            piece_offsets@,
                            (#[trigger] scored_moves@[i]).x as int,
                            scored_moves@[i].y as int,
                        ) <= best_crit
                },
            decreases n - idx,
        {
            let cand = scored_moves[idx];
            let c = self.strategic_criterion_at(distance_map, piece_offsets, cand.x, cand.y);
            if c > best_crit {
                best = cand;
                best_crit = c;
                proof {
                    bi = idx as int;
                }
            }
            idx = idx + 1;
        }
        best
    }
}

/// Unrolls one step of `blocking_sum` over a growing prefix of the offsets.
pub proof fn lemma_blocking_sum_take_step(
    s: GameState,
    dm: Seq<Vec<i32>>,
    x: int,
    y: int,
    offs: Seq<PieceOffset>,
    i: int,
)
    requires
        0 <= i < offs.len(),
    ensures
        s.blocking_sum(dm, x, y, offs.take(i + 1)) == s.blocking_sum(dm, x, y, offs.take(i)) + (
        if s.claims_at(x, y, offs[i]) && dm_at(dm, x + offs[i].dx, y + offs[i].dy) != -1 && dm_at(
            dm,
            x + offs[i].dx,
            y + offs[i].dy,
        ) <= 4 {
            5 - dm_at(dm, x + offs[i].dx, y + offs[i].dy)
        } else {
            0int
        }),
{
    assert(offs.take(i + 1).drop_last() =~= offs.take(i));
    assert(offs.take(i + 1).last() == offs[i]);
}

} // verus!
