use vstd::prelude::*;

use crate::distance::distance_map_ok;
use crate::game_state::{GameState, MAX_DIM};
use crate::types::{preferred, PieceOffset};

verus! {

/// A displacement clamped at zero: the emitted move is expressed in the
/// original piece's frame and must stay non-negative.
pub open spec fn clamp0(v: int) -> int {
    if v > 0 {
        v
    } else {
        0
    }
}

impl GameState {
    /// Some legal anchor exists inside the bounded scan's window.
    pub open spec fn any_bounded_hit(self, offs: Seq<PieceOffset>, tox: int, toy: int) -> bool {
        exists|x: int, y: int| self.bounded_scan_hit(offs, tox, toy, x, y)
    }

    /// Some legal anchor exists anywhere on the board.
    pub open spec fn any_board_hit(self, offs: Seq<PieceOffset>) -> bool {
        exists|x: int, y: int| self.board_scan_hit(offs, x, y)
    }

    /// `(x, y)` is a legal anchor inside the scan window that ranks before
    /// every other one: strictly higher score, or an equal score and a lower
    /// y, or equal score and y and a lower x.
    pub open spec fn best_window_hit(
        self,
        dm: Seq<Vec<i32>>,
        offs: Seq<PieceOffset>,
        tox: int,
        toy: int,
        x: int,
        y: int,
    ) -> bool {
        &&& self.window_hit(offs, tox, toy, x, y)
        &&& forall|a: int, b: int|
            #[trigger] self.window_hit(offs, tox, toy, a, b) && !(a == x && b == y) ==> preferred(
                self.spec_score(dm, x, y, offs),
                x,
                y,
                self.spec_score(dm, a, b, offs),
                a,
                b,
            )
    }

    /// `(x, y)` is a legal anchor of the exhaustive full-board scan that
    /// ranks before every other one.
    pub open spec fn best_board_hit(
        self,
        dm: Seq<Vec<i32>>,
        offs: Seq<PieceOffset>,
        x: int,
        y: int,
    ) -> bool {
        &&& self.board_scan_hit(offs, x, y)
        &&& forall|a: int, b: int|
            #[trigger] self.board_scan_hit(offs, a, b) && !(a == x && b == y) ==> preferred(
                self.spec_score(dm, x, y, offs),
                x,
                y,
                self.spec_score(dm, a, b, offs),
                a,
                b,
            )
    }

    /// Choose this turn's move: compute the opponent-distance map, enumerate
    /// the legal anchors — falling back to the exhaustive full-board scan
    /// when the bounded one reports nothing — score each, and return the
    /// best anchor translated back into the original piece's coordinate
    /// frame, clamped at zero, or the pass sentinel `(0, 0)` when no legal
    /// placement exists at all.
    pub fn choose_move(
        &self,
        piece_offsets: &Vec<PieceOffset>,
        trim_off_x: i32,
        trim_off_y: i32,
    ) -> (r: (i32, i32))
        requires
            self.wf(),
            0 <= trim_off_x <= MAX_DIM,
            0 <= trim_off_y <= MAX_DIM,
            piece_offsets@.len() <= 0x1000000,
        ensures
            r.0 >= 0 && r.1 >= 0,
            self.any_bounded_hit(piece_offsets@, trim_off_x as int, trim_off_y as int) ==> exists|
                dm: Seq<Vec<i32>>,
            |
                #[trigger] distance_map_ok(*self, dm) && self.best_window_hit(
                    dm,
                    piece_offsets@,
                    trim_off_x as int,
                    trim_off_y as int,
                    r.0 + trim_off_x,
                    r.1 + trim_off_y,
                ),
            !self.any_bounded_hit(piece_offsets@, trim_off_x as int, trim_off_y as int)
                && self.any_board_hit(piece_offsets@) ==> exists|
                dm: Seq<Vec<i32>>,
                bx: int,
                by: int,
            |
                #![trigger self.best_board_hit(dm, piece_offsets@, bx, by)]
                distance_map_ok(*self, dm) && self.best_board_hit(dm, piece_offsets@, bx, by)
                    && r.0 == clamp0(bx - trim_off_x) && r.1 == clamp0(by - trim_off_y),
            !self.any_bounded_hit(piece_offsets@, trim_off_x as int, trim_off_y as int)
                && !self.any_board_hit(piece_offsets@) ==> r == (0i32, 0i32),
    {
        let distance_map = self.calculate_distance_map();
        let mut legal_moves = self.find_legal_moves(piece_offsets, trim_off_x, trim_off_y);
        let mut used_emergency = false;
        if legal_moves.len() == 0 {
            proof {
                assert forall|a: int, b: int|
                    !self.bounded_scan_hit(
                        piece_offsets@,
                        trim_off_x as int,
                        trim_off_y as int,
                        a,
                        b,
                    ) by {
                    if self.bounded_scan_hit(
                        piece_offsets@,
                        trim_off_x as int,
                        trim_off_y as int,
                        a,
                        b,
                    ) {
                        assert(legal_moves@.contains(((a as i32), (b as i32))));
                    }
                }
            }
            legal_moves = self.emergency_move_search(piece_offsets, trim_off_x, trim_off_y);
            used_emergency = true;
        }
        if legal_moves.len() == 0 {
            proof {
                assert forall|a: int, b: int|
                    !self.board_scan_hit(piece_offsets@, a, b) by {
                    if self.board_scan_hit(piece_offsets@, a, b) {
                        assert(legal_moves@.contains(((a as i32), (b as i32))));
                    }
                }
            }
            return (0, 0);
        }

        let ghost sst = *self;
        let ghost offsv = piece_offsets@;
        let ghost gtox = trim_off_x as int;
        let ghost gtoy = trim_off_y as int;
        let ghost hitp: spec_fn(int, int) -> bool = if used_emergency {
            |a: int, b: int| sst.board_scan_hit(offsv, a, b)
        } else {
            |a: int, b: int| sst.bounded_scan_hit(offsv, gtox, gtoy, a, b)
        };
        proof {
            assert forall|j: int| 0 <= j < legal_moves@.len() implies hitp(
                (#[trigger] legal_moves@[j]).0 as int,
                legal_moves@[j].1 as int,
            ) by {}
            assert forall|x: i32, y: i32| hitp(x as int, y as int) implies legal_moves@.contains(
                (x, y),
            ) by {}
            assert forall|a: int, b: int| #[trigger] hitp(a, b) implies (self.placement_legal(
                a,
                b,
                piece_offsets@,
            ) && 0 <= a <= 0x2000 && 0 <= b <= 0x2000) by {}
        }

        let first = legal_moves[0];
        let mut best = first;
        let mut best_score = self.score_move(best.0, best.1, &distance_map, piece_offsets);
        let ghost mut bi: int = 0;
        let mut i: usize = 1;
        while i < legal_moves.len()
            invariant
                self.wf(),
                sst == *self,
                offsv == piece_offsets@,
                piece_offsets@.len() <= 0x1000000,
                distance_map_ok(*self, distance_map@),
                1 <= i <= legal_moves@.len(),
                forall|j: int|
                    0 <= j < legal_moves@.len() ==> hitp(
                        (#[trigger] legal_moves@[j]).0 as int,
                        legal_moves@[j].1 as int,
                    ),
                forall|x: i32, y: i32| hitp(x as int, y as int) ==> legal_moves@.contains((x, y)),
                forall|a: int, b: int|
                    #[trigger] hitp(a, b) ==> (self.placement_legal(a, b, piece_offsets@) && 0 <= a
                        <= 0x2000 && 0 <= b <= 0x2000),
                forall|i2: int, j2: int|
                    0 <= i2 < j2 < legal_moves@.len() ==> ((#[trigger] legal_moves@[i2]).1
                        < (#[trigger] legal_moves@[j2]).1 || (legal_moves@[i2].1
                        == legal_moves@[j2].1 && legal_moves@[i2].0 < legal_moves@[j2].0)),
                0 <= bi < i,
                legal_moves@[bi] == best,
                best_score == self.spec_score(
                    distance_map@,
                    best.0 as int,
                    best.1 as int,
                    piece_offsets@,
                ),
                forall|j: int|
                    0 <= j < bi ==> self.spec_score(
                        distance_map@,
                        (#[trigger] legal_moves@[j]).0 as int,
                        legal_moves@[j].1 as int,
                        piece_offsets@,
                    ) < best_score,
                forall|j: int|
                    bi < j < i ==> self.spec_score(
                        distance_map@,
                        (#[trigger] legal_moves@[j]).0 as int,
                        legal_moves@[j].1 as int,
                        piece_offsets@,
                    ) <= best_score,
            decreases legal_moves@.len() - i,
        {
            let m = legal_moves[i];
            let s = self.score_move(m.0, m.1, &distance_map, piece_offsets);
            if s > best_score {
                best = m;
                best_score = s;
                proof {
                    bi = i as int;
                }
            }
            i = i + 1;
        }

        proof {
            assert(hitp(best.0 as int, best.1 as int));
            assert forall|a: int, b: int|
                #[trigger] hitp(a, b) && !(a == best.0 && b == best.1) implies preferred(
                self.spec_score(distance_map@, best.0 as int, best.1 as int, piece_offsets@),
                best.0 as int,
                best.1 as int,
                self.spec_score(distance_map@, a, b, piece_offsets@),
                a,
                b,
            ) by {
                assert(legal_moves@.contains(((a as i32), (b as i32))));
                let j = choose|j: int|
                    0 <= j < legal_moves@.len() && legal_moves@[j] == ((a as i32), (b as i32));
                assert(legal_moves@[j].0 as int == a && legal_moves@[j].1 as int == b);
                assert(j != bi);
                if j < bi {
                    assert(self.spec_score(distance_map@, a, b, piece_offsets@) < best_score);
                } else {
                    assert(self.spec_score(distance_map@, a, b, piece_offsets@) <= best_score);
                    if self.spec_score(distance_map@, a, b, piece_offsets@) == best_score {
                        assert(legal_moves@[bi].1 < legal_moves@[j].1 || (legal_moves@[bi].1
                            == legal_moves@[j].1 && legal_moves@[bi].0 < legal_moves@[j].0));
                    }
                }
            }
        }

        let out_x = best.0 - trim_off_x;
        let out_y = best.1 - trim_off_y;
        let ox = if out_x > 0 {
            out_x
        } else {
            0
        };
        let oy = if out_y > 0 {
            out_y
        } else {
            0
        };
        proof {
            if used_emergency {
                assert forall|a: int, b: int|
                    #[trigger] self.board_scan_hit(piece_offsets@, a, b) && !(a == best.0 && b
                        == best.1) implies preferred(
                    self.spec_score(distance_map@, best.0 as int, best.1 as int, piece_offsets@),
                    best.0 as int,
                    best.1 as int,
                    self.spec_score(distance_map@, a, b, piece_offsets@),
                    a,
                    b,
                ) by {
                    assert(hitp(a, b));
                }
                assert(self.best_board_hit(
                    distance_map@,
                    piece_offsets@,
                    best.0 as int,
                    best.1 as int,
                ));
                assert(ox as int == clamp0(best.0 - gtox));
                assert(oy as int == clamp0(best.1 - gtoy));
                assert(distance_map_ok(*self, distance_map@));
            } else {
                assert(self.bounded_scan_hit(
                    piece_offsets@,
                    gtox,
                    gtoy,
                    best.0 as int,
                    best.1 as int,
                ));
                assert forall|a: int, b: int|
                    #[trigger] self.window_hit(piece_offsets@, gtox, gtoy, a, b) && !(a == best.0
                        && b == best.1) implies preferred(
                    self.spec_score(distance_map@, best.0 as int, best.1 as int, piece_offsets@),
                    best.0 as int,
                    best.1 as int,
                    self.spec_score(distance_map@, a, b, piece_offsets@),
                    a,
                    b,
                ) by {
                    assert(self.piece_fits());
                    assert(hitp(a, b));
                }
                assert(self.best_window_hit(
                    distance_map@,
                    piece_offsets@,
                    gtox,
                    gtoy,
                    best.0 as int,
                    best.1 as int,
                ));
                assert(best.0 >= trim_off_x && best.1 >= trim_off_y);
                assert(ox as int + gtox == best.0 as int);
                assert(oy as int + gtoy == best.1 as int);
                assert(distance_map_ok(*self, distance_map@));
            }
        }
        (ox, oy)
    }
}

} // verus!
