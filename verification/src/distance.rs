use vstd::prelude::*;

use crate::counting::{grid_count, lemma_grid_count_bounds, lemma_grid_count_skips_one,
    lemma_grid_count_update, lemma_row_count_update};
use crate::game_state::GameState;
use crate::scoring::spec_abs;
use crate::types::{Cell, Player};

verus! {

/// The predicate "this distance-map entry still holds the unreachable
/// sentinel".
pub open spec fn unvisited() -> spec_fn(i32) -> bool {
    |v: i32| v == -1i32
}

/// The distance map has the board's dimensions.
pub open spec fn dm_dims_ok(s: GameState, dm: Seq<Vec<i32>>) -> bool {
    &&& dm.len() == s.board_height
    &&& forall|r: int| 0 <= r < dm.len() ==> (#[trigger] dm[r])@.len() == s.board_width
}

/// The distance-map value at `(x, y)`.
pub open spec fn dm_at(dm: Seq<Vec<i32>>, x: int, y: int) -> int {
    dm[y]@[x] as int
}

/// Every in-bounds 4-connected neighbor of `(x, y)` is visited, with a value
/// of at most `v + 1`.
#[verifier::opaque]
pub open spec fn nbrs_settled(s: GameState, dm: Seq<Vec<i32>>, x: int, y: int, v: int) -> bool {
    &&& s.in_bounds(x, y + 1) ==> (dm_at(dm, x, y + 1) != -1 && dm_at(dm, x, y + 1) <= v + 1)
    &&& s.in_bounds(x + 1, y) ==> (dm_at(dm, x + 1, y) != -1 && dm_at(dm, x + 1, y) <= v + 1)
    &&& s.in_bounds(x, y - 1) ==> (dm_at(dm, x, y - 1) != -1 && dm_at(dm, x, y - 1) <= v + 1)
    &&& s.in_bounds(x - 1, y) ==> (dm_at(dm, x - 1, y) != -1 && dm_at(dm, x - 1, y) <= v + 1)
}

/// Some in-bounds 4-connected neighbor of `(x, y)` holds exactly `v`.
#[verifier::opaque]
pub open spec fn some_nbr_at(s: GameState, dm: Seq<Vec<i32>>, x: int, y: int, v: int) -> bool {
    ||| s.in_bounds(x, y + 1) && dm_at(dm, x, y + 1) == v
    ||| s.in_bounds(x + 1, y) && dm_at(dm, x + 1, y) == v
    ||| s.in_bounds(x, y - 1) && dm_at(dm, x, y - 1) == v
    ||| s.in_bounds(x - 1, y) && dm_at(dm, x - 1, y) == v
}

/// Every in-bounds 4-connected neighbor of `(x, y)` is unvisited or holds at
/// least `v`.
#[verifier::opaque]
pub open spec fn nbrs_at_least(s: GameState, dm: Seq<Vec<i32>>, x: int, y: int, v: int) -> bool {
    &&& s.in_bounds(x, y + 1) ==> (dm_at(dm, x, y + 1) == -1 || dm_at(dm, x, y + 1) >= v)
    &&& s.in_bounds(x + 1, y) ==> (dm_at(dm, x + 1, y) == -1 || dm_at(dm, x + 1, y) >= v)
    &&& s.in_bounds(x, y - 1) ==> (dm_at(dm, x, y - 1) == -1 || dm_at(dm, x, y - 1) >= v)
    &&& s.in_bounds(x - 1, y) ==> (dm_at(dm, x - 1, y) == -1 || dm_at(dm, x - 1, y) >= v)
}

/// Every in-bounds 4-connected neighbor of `(x, y)` is unvisited too.
#[verifier::opaque]
pub open spec fn nbrs_unvisited(s: GameState, dm: Seq<Vec<i32>>, x: int, y: int) -> bool {
    &&& s.in_bounds(x, y + 1) ==> dm_at(dm, x, y + 1) == -1
    &&& s.in_bounds(x + 1, y) ==> dm_at(dm, x + 1, y) == -1
    &&& s.in_bounds(x, y - 1) ==> dm_at(dm, x, y - 1) == -1
    &&& s.in_bounds(x - 1, y) ==> dm_at(dm, x - 1, y) == -1
}

/// What the opponent-distance map states, cell by cell: opponent cells are at
/// distance zero and only they; a positive value is one more than the value
/// of some neighbor and no more than one above any visited neighbor (so it is
/// one plus the minimum among neighbors with a smaller value); every neighbor
/// of a visited cell is visited; unreachable cells keep the sentinel `-1`,
/// and all their neighbors are unreachable too.
pub open spec fn distance_map_ok(s: GameState, dm: Seq<Vec<i32>>) -> bool {
    &&& dm_dims_ok(s, dm)
    &&& forall|x: int, y: int|
        s.in_bounds(x, y) ==> (#[trigger] dm_at(dm, x, y) == 0 <==> s.cell_at(x, y)
            == s.opp_cell())
    &&& forall|x: int, y: int|
        s.in_bounds(x, y) ==> -1 <= #[trigger] dm_at(dm, x, y)
            <= s.board_width * s.board_height
    &&& forall|x: int, y: int|
        s.in_bounds(x, y) && #[trigger] dm_at(dm, x, y) > 0 ==> some_nbr_at(
            s,
            dm,
            x,
            y,
            dm_at(dm, x, y) - 1,
        )
    &&& forall|x: int, y: int|
        s.in_bounds(x, y) && #[trigger] dm_at(dm, x, y) > 0 ==> nbrs_at_least(
            s,
            dm,
            x,
            y,
            dm_at(dm, x, y) - 1,
        )
    &&& forall|x: int, y: int|
        s.in_bounds(x, y) && #[trigger] dm_at(dm, x, y) >= 0 ==> nbrs_settled(
            s,
            dm,
            x,
            y,
            dm_at(dm, x, y),
        )
    &&& forall|x: int, y: int|
        s.in_bounds(x, y) && #[trigger] dm_at(dm, x, y) == -1 ==> nbrs_unvisited(s, dm, x, y)
}

/// The state in the middle of one breadth-first wave: `dm0` is the map at the
/// start of the wave, with no cell beyond level `k`; cells have only changed
/// from unvisited to level `k + 1`, and `next` collects exactly those cells.
pub open spec fn bfs_wave_inv(
    s: GameState,
    dm0: Seq<Vec<i32>>,
    dm: Seq<Vec<i32>>,
    next: Seq<(usize, usize)>,
    k: int,
) -> bool {
    &&& dm_dims_ok(s, dm)
    &&& dm_dims_ok(s, dm0)
    &&& 0 <= k
    &&& forall|x: int, y: int| s.in_bounds(x, y) ==> -1 <= #[trigger] dm_at(dm, x, y) <= k + 1
    &&& forall|x: int, y: int|
        s.in_bounds(x, y) ==> (#[trigger] dm_at(dm, x, y) == dm_at(dm0, x, y) || (dm_at(dm0, x, y)
            == -1 && dm_at(dm, x, y) == k + 1))
    &&& forall|x: int, y: int|
        s.in_bounds(x, y) && #[trigger] dm_at(dm, x, y) == k + 1 ==> (dm_at(dm0, x, y) == -1
            && next.contains((x as usize, y as usize)))
    &&& forall|j: int|
        0 <= j < next.len() ==> {
            let (nx, ny) = #[trigger] next[j];
            &&& s.in_bounds(nx as int, ny as int)
            &&& dm_at(dm0, nx as int, ny as int) == -1
            &&& dm_at(dm, nx as int, ny as int) == k + 1
        }
    &&& grid_count(dm, unvisited()) == grid_count(dm0, unvisited()) - next.len()
    &&& forall|x: int, y: int|
        s.in_bounds(x, y) ==> (#[trigger] dm_at(dm, x, y) == 0 <==> s.cell_at(x, y)
            == s.opp_cell())
    &&& forall|x: int, y: int|
        s.in_bounds(x, y) && 0 <= #[trigger] dm_at(dm, x, y) < k ==> nbrs_settled(
            s,
            dm,
            x,
            y,
            dm_at(dm, x, y),
        )
    &&& forall|x: int, y: int|
        s.in_bounds(x, y) && #[trigger] dm_at(dm, x, y) > 0 ==> some_nbr_at(
            s,
            dm,
            x,
            y,
            dm_at(dm, x, y) - 1,
        )
    &&& forall|x: int, y: int|
        s.in_bounds(x, y) && #[trigger] dm_at(dm, x, y) > 0 ==> nbrs_at_least(
            s,
            dm,
            x,
            y,
            dm_at(dm, x, y) - 1,
        )
}

impl GameState {
    /// Visit one neighbor `(nx, ny)` of the wave cell `(cx, cy)` (which sits
    /// at level `k`): when it is still unvisited, mark it with level `k + 1`
    /// and add it to the next wave.
    #[verifier::spinoff_prover]
    #[verifier::rlimit(100)]
    fn bfs_visit(
        &self,
        dm: &mut Vec<Vec<i32>>,
        next: &mut Vec<(usize, usize)>,
        nx: usize,
        ny: usize,
        cx: usize,
        cy: usize,
        k: i32,
        dm0: Ghost<Seq<Vec<i32>>>,
    )
        requires
            self.wf(),
            0 <= k,
            k + 1 <= 0x1000000,
            bfs_wave_inv(*self, dm0@, old(dm)@, old(next)@, k as int),
            self.in_bounds(nx as int, ny as int),
            self.in_bounds(cx as int, cy as int),
            (nx == cx && (ny == cy + 1 || ny + 1 == cy)) || (ny == cy && (nx == cx + 1 || nx + 1
                == cx)),
            dm_at(old(dm)@, cx as int, cy as int) == k,
        ensures
            bfs_wave_inv(*self, dm0@, final(dm)@, final(next)@, k as int),
            forall|x: int, y: int|
                self.in_bounds(x, y) && !(x == nx && y == ny) ==> #[trigger] dm_at(final(dm)@, x, y)
                    == dm_at(old(dm)@, x, y),
            dm_at(final(dm)@, nx as int, ny as int) != -1,
            dm_at(final(dm)@, nx as int, ny as int) <= k + 1,
            dm_at(old(dm)@, nx as int, ny as int) != -1 ==> (final(dm)@ == old(dm)@ && final(next)@
                == old(next)@),
            dm_at(old(dm)@, nx as int, ny as int) == -1 ==> (dm_at(final(dm)@, nx as int, ny as int)
                == k + 1 && final(next)@ == old(next)@.push((nx, ny))),
    {
        if dm[ny][nx] == -1 {
            let ghost prev = dm@;
            let ghost prev_next = next@;
            dm[ny][nx] = k + 1;
            next.push((nx, ny));
            proof {
                let s = *self;
                let cur = dm@;
                assert(cur =~= prev.update(ny as int, cur[ny as int]));
                assert(cur[ny as int]@ =~= prev[ny as int]@.update(nx as int, (k + 1) as i32));
                lemma_row_count_update(
                    prev[ny as int]@,
                    unvisited(),
                    nx as int,
                    (k + 1) as i32,
                );
                lemma_grid_count_update(prev, unvisited(), ny as int, dm[ny as int]);
                // only (nx, ny) changed
                assert forall|x: int, y: int|
                    s.in_bounds(x, y) && !(x == nx && y == ny) implies #[trigger] dm_at(cur, x, y)
                    == dm_at(prev, x, y) by {}
                assert(dm_at(prev, nx as int, ny as int) == -1);
                assert(dm_at(cur, nx as int, ny as int) == k + 1);
                assert(dm_at(prev, nx as int, ny as int) == dm_at(dm0@, nx as int, ny as int) || (
                dm_at(dm0@, nx as int, ny as int) == -1 && dm_at(prev, nx as int, ny as int) == k
                    + 1));
                assert(dm_at(dm0@, nx as int, ny as int) == -1);
                assert forall|x: int, y: int| s.in_bounds(x, y) implies -1 <= #[trigger] dm_at(
                    cur,
                    x,
                    y,
                ) <= k + 1 by {
                    if x == nx && y == ny {
                        assert(dm_at(cur, x, y) == k + 1);
                    } else {
                        assert(dm_at(cur, x, y) == dm_at(prev, x, y));
                        assert(-1 <= dm_at(prev, x, y) <= k + 1);
                    }
                }
                assert forall|x: int, y: int| s.in_bounds(x, y) implies (#[trigger] dm_at(cur, x, y)
                    == 0 <==> s.cell_at(x, y) == s.opp_cell()) by {
                    if x == nx && y == ny {
                        assert(dm_at(prev, x, y) == -1);
                        assert(dm_at(prev, x, y) == 0 <==> s.cell_at(x, y) == s.opp_cell());
                        assert(dm_at(cur, x, y) == k + 1);
                    } else {
                        assert(dm_at(cur, x, y) == dm_at(prev, x, y));
                        assert(dm_at(prev, x, y) == 0 <==> s.cell_at(x, y) == s.opp_cell());
                    }
                }
                // membership in the extended next wave
                assert forall|x: int, y: int|
                    s.in_bounds(x, y) && #[trigger] dm_at(cur, x, y) == k + 1 implies (dm_at(
                    dm0@,
                    x,
                    y,
                ) == -1 && next@.contains((x as usize, y as usize))) by {
                    if x == nx && y == ny {
                        assert(next@[next@.len() - 1] == (nx, ny));
                    } else {
                        assert(dm_at(prev, x, y) == k + 1);
                        assert(prev_next.contains((x as usize, y as usize)));
                        let j = choose|j: int|
                            0 <= j < prev_next.len() && prev_next[j] == (x as usize, y as usize);
                        assert(next@[j] == (x as usize, y as usize));
                    }
                }
                // settled cells stay settled: their neighbors were all visited
                assert forall|x: int, y: int|
                    s.in_bounds(x, y) && 0 <= #[trigger] dm_at(cur, x, y) < k implies nbrs_settled(
                    s,
                    cur,
                    x,
                    y,
                    dm_at(cur, x, y),
                ) by {
                    reveal(nbrs_settled);
                    assert(dm_at(cur, x, y) == dm_at(prev, x, y));
                    assert(nbrs_settled(s, prev, x, y, dm_at(prev, x, y)));
                }
                // every positive cell still has a neighbor one level below
                assert forall|x: int, y: int|
                    s.in_bounds(x, y) && #[trigger] dm_at(cur, x, y) > 0 implies some_nbr_at(
                    s,
                    cur,
                    x,
                    y,
                    dm_at(cur, x, y) - 1,
                ) by {
                    reveal(some_nbr_at);
                    if x == nx && y == ny {
                        assert(dm_at(cur, cx as int, cy as int) == k);
                    } else {
                        assert(dm_at(cur, x, y) == dm_at(prev, x, y));
                        assert(some_nbr_at(s, prev, x, y, dm_at(prev, x, y) - 1));
                    }
                }
                // no positive cell has a neighbor more than one level below
                assert forall|x: int, y: int|
                    s.in_bounds(x, y) && #[trigger] dm_at(cur, x, y) > 0 implies nbrs_at_least(
                    s,
                    cur,
                    x,
                    y,
                    dm_at(cur, x, y) - 1,
                ) by {
                    reveal(nbrs_at_least);
                    reveal(nbrs_settled);
                    if x == nx && y == ny {
                        // a settled neighbor would have seen this cell already
                        if s.in_bounds(x, y + 1) && dm_at(cur, x, y + 1) != -1 && dm_at(
                            cur,
                            x,
                            y + 1,
                        ) < k {
                            assert(dm_at(prev, x, y + 1) == dm_at(cur, x, y + 1));
                            assert(nbrs_settled(s, prev, x, y + 1, dm_at(prev, x, y + 1)));
                            assert(dm_at(prev, x, y) != -1);
                            assert(false);
                        }
                        if s.in_bounds(x + 1, y) && dm_at(cur, x + 1, y) != -1 && dm_at(
                            cur,
                            x + 1,
                            y,
                        ) < k {
                            assert(dm_at(prev, x + 1, y) == dm_at(cur, x + 1, y));
                            assert(nbrs_settled(s, prev, x + 1, y, dm_at(prev, x + 1, y)));
                            assert(dm_at(prev, x, y) != -1);
                            assert(false);
                        }
                        if s.in_bounds(x, y - 1) && dm_at(cur, x, y - 1) != -1 && dm_at(
                            cur,
                            x,
                            y - 1,
                        ) < k {
                            assert(dm_at(prev, x, y - 1) == dm_at(cur, x, y - 1));
                            assert(nbrs_settled(s, prev, x, y - 1, dm_at(prev, x, y - 1)));
                            assert(dm_at(prev, x, y) != -1);
                            assert(false);
                        }
                        if s.in_bounds(x - 1, y) && dm_at(cur, x - 1, y) != -1 && dm_at(
                            cur,
                            x - 1,
                            y,
                        ) < k {
                            assert(dm_at(prev, x - 1, y) == dm_at(cur, x - 1, y));
                            assert(nbrs_settled(s, prev, x - 1, y, dm_at(prev, x - 1, y)));
                            assert(dm_at(prev, x, y) != -1);
                            assert(false);
                        }
                    } else {
                        assert(dm_at(cur, x, y) == dm_at(prev, x, y));
                        assert(nbrs_at_least(s, prev, x, y, dm_at(prev, x, y) - 1));
                    }
                }
            }
        }
    }
}

} // verus!

verus! {

impl GameState {
    /// Compute the opponent-distance map: a multi-source breadth-first search
    /// seeded at every opponent-owned cell, expanding wave by wave through
    /// the whole grid, so that every cell ends up with its shortest
    /// 4-connected distance to the nearest opponent cell, or the sentinel
    /// `-1` when the board holds no opponent cell at all.
    #[verifier::spinoff_prover]
    #[verifier::rlimit(100)]
    pub fn calculate_distance_map(&self) -> (dm: Vec<Vec<i32>>)
        requires
            self.wf(),
        ensures
            distance_map_ok(*self, dm@),
            forall|x: int, y: int|
                self.in_bounds(x, y) ==> #[trigger] dm_at(dm@, x, y) == ({
                    let md = GameState::grid_min_conn(self.board@, self.opp_cell(), x, y);
                    if md != 0x7fffffff {
                        md
                    } else {
                        -1int
                    }
                }),
    {
        let bw = self.board_width;
        let bh = self.board_height;
        proof {
            assert(bw * bh <= 0x1000 * 0x1000) by (nonlinear_arith)
                requires
                    0 <= bw <= 0x1000,
                    0 <= bh <= 0x1000,
            ;
        }
        let wh = bw * bh;

        let mut dm: Vec<Vec<i32>> = Vec::new();
        let mut by: usize = 0;
        while by < bh
            invariant
                by <= bh,
                dm@.len() == by,
                forall|r: int| 0 <= r < by ==> (#[trigger] dm@[r])@.len() == bw,
                forall|r: int, c: int| 0 <= r < by && 0 <= c < bw ==> dm@[r]@[c] == -1i32,
            decreases bh - by,
        {
            let mut row: Vec<i32> = Vec::new();
            let mut bx: usize = 0;
            while bx < bw
                invariant
                    bx <= bw,
                    row@.len() == bx,
                    forall|c: int| 0 <= c < bx ==> row@[c] == -1i32,
                decreases bw - bx,
            {
                row.push(-1);
                bx = bx + 1;
            }
            dm.push(row);
            by = by + 1;
        }

        let op = if self.player == Player::One {
            Cell::Player2
        } else {
            Cell::Player1
        };
        let mut frontier: Vec<(usize, usize)> = Vec::new();
        let mut sy: usize = 0;
        while sy < bh
            invariant
                self.wf(),
                op == self.opp_cell(),
                bw == self.board_width,
                bh == self.board_height,
                sy <= bh,
                dm_dims_ok(*self, dm@),
                forall|x: int, y: int|
                    self.in_bounds(x, y) ==> #[trigger] dm_at(dm@, x, y) == (if y < sy
                        && self.cell_at(x, y) == self.opp_cell() {
                        0int
                    } else {
                        -1int
                    }),
                forall|j: int|
                    0 <= j < frontier@.len() ==> {
                        let (fx, fy) = #[trigger] frontier@[j];
                        &&& fx < bw
                        &&& fy < bh
                        &&& dm_at(dm@, fx as int, fy as int) == 0
                    },
                forall|x: usize, y: usize|
                    x < bw && y < bh && dm_at(dm@, x as int, y as int) == 0
                        ==> frontier@.contains((x, y)),
            decreases bh - sy,
        {
            let mut sx: usize = 0;
            while sx < bw
                invariant
                    self.wf(),
                    op == self.opp_cell(),
                    bw == self.board_width,
                    bh == self.board_height,
                    sy < bh,
                    sx <= bw,
                    dm_dims_ok(*self, dm@),
                    forall|x: int, y: int|
                        self.in_bounds(x, y) ==> #[trigger] dm_at(dm@, x, y) == (if (y < sy || (y
                            == sy && x < sx)) && self.cell_at(x, y) == self.opp_cell() {
                            0int
                        } else {
                            -1int
                        }),
                    forall|j: int|
                        0 <= j < frontier@.len() ==> {
                            let (fx, fy) = #[trigger] frontier@[j];
                            &&& fx < bw
                            &&& fy < bh
                            &&& dm_at(dm@, fx as int, fy as int) == 0
                        },
                    forall|x: usize, y: usize|
                        x < bw && y < bh && dm_at(dm@, x as int, y as int) == 0
                            ==> frontier@.contains((x, y)),
                decreases bw - sx,
            {
                if self.board[sy][sx] == op {
                    let ghost prev = dm@;
                    let ghost prev_frontier = frontier@;
                    dm[sy][sx] = 0;
                    frontier.push((sx, sy));
                    proof {
                        assert(dm@ =~= prev.update(sy as int, dm@[sy as int]));
                        assert(dm@[sy as int]@ =~= prev[sy as int]@.update(sx as int, 0i32));
                        assert forall|x: int, y: int| self.in_bounds(x, y) implies #[trigger] dm_at(
                            dm@,
                            x,
                            y,
                        ) == (if (y < sy || (y == sy && x < sx + 1)) && self.cell_at(x, y)
                            == self.opp_cell() {
                            0int
                        } else {
                            -1int
                        }) by {
                            if !(x == sx && y == sy) {
                                assert(dm_at(dm@, x, y) == dm_at(prev, x, y));
                            }
                        }
                        assert forall|x: usize, y: usize|
                            x < bw && y < bh && dm_at(dm@, x as int, y as int) == 0 implies
                            frontier@.contains((x, y)) by {
                            if x == sx && y == sy {
                                assert(frontier@[frontier@.len() - 1] == (x, y));
                            } else {
                                assert(dm_at(prev, x as int, y as int) == 0);
                                assert(prev_frontier.contains((x, y)));
                                let j = choose|j: int|
                                    0 <= j < prev_frontier.len() && prev_frontier[j] == (x, y);
                                assert(frontier@[j] == (x, y));
                            }
                        }
                    }
                }
                sx = sx + 1;
            }
            sy = sy + 1;
        }

        let mut k: i32 = 0;
        proof {
            lemma_grid_count_bounds(dm@, unvisited(), bw as int);
            if frontier.len() > 0 {
                let (fx, fy) = frontier@[0];
                assert(dm_at(dm@, fx as int, fy as int) == 0);
                assert(!(unvisited()(dm@[fy as int]@[fx as int])));
                lemma_grid_count_skips_one(
                    dm@,
                    unvisited(),
                    bw as int,
                    fx as int,
                    fy as int,
                );
                assert((bh as int) * (bw as int) == (bw as int) * (bh as int)) by (nonlinear_arith);
            }
            reveal(nbrs_settled);
            reveal(some_nbr_at);
            reveal(nbrs_at_least);
        }

        while frontier.len() > 0
            invariant
                self.wf(),
                op == self.opp_cell(),
                bw == self.board_width,
                bh == self.board_height,
                wh == bw * bh,
                wh <= 0x1000000,
                dm_dims_ok(*self, dm@),
                0 <= k <= wh,
                forall|x: int, y: int|
                    self.in_bounds(x, y) ==> -1 <= #[trigger] dm_at(dm@, x, y) <= k,
                forall|x: int, y: int|
                    self.in_bounds(x, y) ==> (#[trigger] dm_at(dm@, x, y) == 0 <==> self.cell_at(
                        x,
                        y,
                    ) == self.opp_cell()),
                forall|j: int|
                    0 <= j < frontier@.len() ==> {
                        let (fx, fy) = #[trigger] frontier@[j];
                        &&& fx < bw
                        &&& fy < bh
                        &&& dm_at(dm@, fx as int, fy as int) == k
                    },
                forall|x: usize, y: usize|
                    x < bw && y < bh && dm_at(dm@, x as int, y as int) == k as int
                        ==> frontier@.contains((x, y)),
                forall|x: int, y: int|
                    self.in_bounds(x, y) && 0 <= #[trigger] dm_at(dm@, x, y) < k ==> nbrs_settled(
                        *self,
                        dm@,
                        x,
                        y,
                        dm_at(dm@, x, y),
                    ),
                forall|x: int, y: int|
                    self.in_bounds(x, y) && #[trigger] dm_at(dm@, x, y) > 0 ==> some_nbr_at(
                        *self,
                        dm@,
                        x,
                        y,
                        dm_at(dm@, x, y) - 1,
                    ),
                forall|x: int, y: int|
                    self.in_bounds(x, y) && #[trigger] dm_at(dm@, x, y) > 0 ==> nbrs_at_least(
                        *self,
                        dm@,
                        x,
                        y,
                        dm_at(dm@, x, y) - 1,
                    ),
                grid_count(dm@, unvisited()) >= 0,
                frontier@.len() > 0 ==> k + grid_count(dm@, unvisited()) + 1 <= wh,
            decreases grid_count(dm@, unvisited()), frontier@.len(),
        {
            let ghost dm0 = dm@;
            let ghost f0 = frontier@;
            let mut next: Vec<(usize, usize)> = Vec::new();
            let flen = frontier.len();
            let mut i: usize = 0;
            while i < flen
                invariant
                    self.wf(),
                    op == self.opp_cell(),
                    bw == self.board_width,
                    bh == self.board_height,
                    wh == bw * bh,
                    wh <= 0x1000000,
                    0 <= k,
                    k + grid_count(dm0, unvisited()) + 1 <= wh,
                    grid_count(dm0, unvisited()) >= 0,
                    frontier@ == f0,
                    flen == f0.len(),
                    i <= flen,
                    bfs_wave_inv(*self, dm0, dm@, next@, k as int),
                    forall|j: int|
                        0 <= j < f0.len() ==> {
                            let (fx, fy) = #[trigger] f0[j];
                            &&& fx < bw
                            &&& fy < bh
                            &&& dm_at(dm@, fx as int, fy as int) == k
                        },
                    forall|x: usize, y: usize|
                        x < bw && y < bh && dm_at(dm@, x as int, y as int) == k as int
                            ==> f0.contains((x, y)),
                    forall|j: int|
                        0 <= j < i ==> {
                            let (fx, fy) = #[trigger] f0[j];
                            nbrs_settled(*self, dm@, fx as int, fy as int, k as int)
                        },
                decreases flen - i,
            {
                let (cx, cy) = frontier[i];
                let ghost dm_before = dm@;
                if cy + 1 < bh {
                    self.bfs_visit(&mut dm, &mut next, cx, cy + 1, cx, cy, k, Ghost(dm0));
                }
                if cx + 1 < bw {
                    self.bfs_visit(&mut dm, &mut next, cx + 1, cy, cx, cy, k, Ghost(dm0));
                }
                if cy > 0 {
                    self.bfs_visit(&mut dm, &mut next, cx, cy - 1, cx, cy, k, Ghost(dm0));
                }
                if cx > 0 {
                    self.bfs_visit(&mut dm, &mut next, cx - 1, cy, cx, cy, k, Ghost(dm0));
                }
                proof {
                    reveal(nbrs_settled);
                    assert(nbrs_settled(*self, dm@, cx as int, cy as int, k as int));
                    assert forall|j: int| 0 <= j < i + 1 implies {
                        let (fx, fy) = #[trigger] f0[j];
                        nbrs_settled(*self, dm@, fx as int, fy as int, k as int)
                    } by {
                        let (fx, fy) = f0[j];
                        if j < i {
                            assert(nbrs_settled(*self, dm_before, fx as int, fy as int, k as int));
                        }
                    }
                }
                i = i + 1;
            }
            proof {
                reveal(nbrs_settled);
                lemma_grid_count_bounds(dm@, unvisited(), bw as int);
                // every cell of the finished wave is settled now
                assert forall|x: int, y: int|
                    self.in_bounds(x, y) && 0 <= #[trigger] dm_at(dm@, x, y) < k + 1 implies
                    nbrs_settled(*self, dm@, x, y, dm_at(dm@, x, y)) by {
                    if dm_at(dm@, x, y) == k {
                        assert(f0.contains((x as usize, y as usize)));
                        let j = choose|j: int|
                            0 <= j < f0.len() && f0[j] == (x as usize, y as usize);
                        assert(nbrs_settled(
                            *self,
                            dm@,
                            f0[j].0 as int,
                            f0[j].1 as int,
                            k as int,
                        ));
                    }
                }
            }
            frontier = next;
            k = k + 1;
        }

        proof {
            reveal(nbrs_settled);
            reveal(nbrs_unvisited);
            // no cell reached level k, so every visited cell is settled, and
            // every neighbor of an unvisited cell is unvisited too
            assert forall|x: int, y: int|
                self.in_bounds(x, y) && #[trigger] dm_at(dm@, x, y) == -1 implies nbrs_unvisited(
                *self,
                dm@,
                x,
                y,
            ) by {
                if self.in_bounds(x, y + 1) && dm_at(dm@, x, y + 1) != -1 {
                    assert(dm_at(dm@, x, y + 1) < k);
                    assert(nbrs_settled(*self, dm@, x, y + 1, dm_at(dm@, x, y + 1)));
                    assert(false);
                }
                if self.in_bounds(x + 1, y) && dm_at(dm@, x + 1, y) != -1 {
                    assert(dm_at(dm@, x + 1, y) < k);
                    assert(nbrs_settled(*self, dm@, x + 1, y, dm_at(dm@, x + 1, y)));
                    assert(false);
                }
                if self.in_bounds(x, y - 1) && dm_at(dm@, x, y - 1) != -1 {
                    assert(dm_at(dm@, x, y - 1) < k);
                    assert(nbrs_settled(*self, dm@, x, y - 1, dm_at(dm@, x, y - 1)));
                    assert(false);
                }
                if self.in_bounds(x - 1, y) && dm_at(dm@, x - 1, y) != -1 {
                    assert(dm_at(dm@, x - 1, y) < k);
                    assert(nbrs_settled(*self, dm@, x - 1, y, dm_at(dm@, x - 1, y)));
                    assert(false);
                }
            }
        }
        proof {
            lemma_distance_map_is_exact(*self, dm@);
        }
        dm
    }
}

} // verus!

verus! {

/// `row_min_conn` is a true minimum over the row: it never undercuts a
/// matching cell, and unless it is the sentinel, some matching cell attains
/// it.
proof fn lemma_row_min_conn_char(row: Seq<Cell>, t: Cell, ry: int, x: int, y: int)
    ensures
        forall|c: int|
            0 <= c < row.len() && row[c] == t ==> GameState::row_min_conn(row, t, ry, x, y)
                <= spec_abs(x - c) + spec_abs(y - ry),
        GameState::row_min_conn(row, t, ry, x, y) != 0x7fffffff ==> exists|c: int|
            0 <= c < row.len() && row[c] == t && #[trigger] spec_abs(x - c) + spec_abs(y - ry)
                == GameState::row_min_conn(row, t, ry, x, y),
    decreases row.len(),
{
    if row.len() > 0 {
        lemma_row_min_conn_char(row.drop_last(), t, ry, x, y);
        let v = GameState::row_min_conn(row, t, ry, x, y);
        let v0 = GameState::row_min_conn(row.drop_last(), t, ry, x, y);
        assert forall|c: int| 0 <= c < row.len() && row[c] == t implies v <= spec_abs(x - c)
            + spec_abs(y - ry) by {
            if c < row.len() - 1 {
                assert(row.drop_last()[c] == row[c]);
            }
        }
        if v != 0x7fffffff {
            if v == v0 && v0 != 0x7fffffff {
                let c = choose|c: int|
                    0 <= c < row.drop_last().len() && row.drop_last()[c] == t && spec_abs(x - c)
                        + spec_abs(y - ry) == v0;
                assert(row[c] == t);
                assert(0 <= c < row.len() && row[c] == t && spec_abs(x - c) + spec_abs(y - ry)
                    == v);
            } else {
                let c = row.len() - 1;
                assert(row[c] == t && spec_abs(x - c) + spec_abs(y - ry) == v);
            }
        }
    }
}

/// `grid_min_conn` is a true minimum over the grid.
proof fn lemma_grid_min_conn_char(g: Seq<Vec<Cell>>, t: Cell, x: int, y: int)
    ensures
        forall|cx: int, cy: int|
            0 <= cy < g.len() && 0 <= cx < g[cy]@.len() && (#[trigger] g[cy]@[cx]) == t
                ==> GameState::grid_min_conn(g, t, x, y) <= spec_abs(x - cx) + spec_abs(y - cy),
        GameState::grid_min_conn(g, t, x, y) != 0x7fffffff ==> exists|cx: int, cy: int|
            0 <= cy < g.len() && 0 <= cx < g[cy]@.len() && (#[trigger] g[cy]@[cx]) == t && spec_abs(
                x - cx,
            ) + spec_abs(y - cy) == GameState::grid_min_conn(g, t, x, y),
    decreases g.len(),
{
    if g.len() > 0 {
        lemma_grid_min_conn_char(g.drop_last(), t, x, y);
        lemma_row_min_conn_char(g.last()@, t, g.len() - 1, x, y);
        let v = GameState::grid_min_conn(g, t, x, y);
        let v0 = GameState::grid_min_conn(g.drop_last(), t, x, y);
        let vr = GameState::row_min_conn(g.last()@, t, g.len() - 1, x, y);
        assert forall|cx: int, cy: int|
            0 <= cy < g.len() && 0 <= cx < g[cy]@.len() && (#[trigger] g[cy]@[cx]) == t implies v
            <= spec_abs(x - cx) + spec_abs(y - cy) by {
            if cy < g.len() - 1 {
                assert(g.drop_last()[cy] == g[cy]);
            } else {
                assert(g.last()@[cx] == g[cy]@[cx]);
            }
        }
        if v != 0x7fffffff {
            if v == v0 && v0 != 0x7fffffff && v0 <= vr {
                let (cx, cy) = choose|cx: int, cy: int|
                    0 <= cy < g.drop_last().len() && 0 <= cx < g.drop_last()[cy]@.len() && (
                    #[trigger] g.drop_last()[cy]@[cx]) == t && spec_abs(x - cx) + spec_abs(y - cy)
                        == v0;
                assert(g[cy]@[cx] == t);
                assert(0 <= cy < g.len() && 0 <= cx < g[cy]@.len() && g[cy]@[cx] == t && spec_abs(
                    x - cx,
                ) + spec_abs(y - cy) == v);
            } else {
                let cy = g.len() - 1;
                let c = choose|c: int|
                    0 <= c < g.last()@.len() && g.last()@[c] == t && #[trigger] spec_abs(x - c)
                        + spec_abs(y - cy) == vr;
                assert(g[cy]@[c] == t);
                assert(0 <= cy < g.len() && 0 <= c < g[cy]@.len() && g[cy]@[c] == t && spec_abs(
                    x - c,
                ) + spec_abs(y - cy) == v);
            }
        }
    }
}

} // verus!

verus! {

/// The minimal distance to a target cell changes by at most one between
/// 4-connected neighbors.
proof fn lemma_min_conn_adjacent(g: Seq<Vec<Cell>>, t: Cell, x1: int, y1: int, x2: int, y2: int)
    requires
        spec_abs(x1 - x2) + spec_abs(y1 - y2) == 1,
        GameState::grid_min_conn(g, t, x2, y2) != 0x7fffffff,
    ensures
        GameState::grid_min_conn(g, t, x1, y1) <= GameState::grid_min_conn(g, t, x2, y2) + 1,
{
    lemma_grid_min_conn_char(g, t, x2, y2);
    lemma_grid_min_conn_char(g, t, x1, y1);
    let v2 = GameState::grid_min_conn(g, t, x2, y2);
    let (cx, cy) = choose|cx: int, cy: int|
        0 <= cy < g.len() && 0 <= cx < g[cy]@.len() && (#[trigger] g[cy]@[cx]) == t && spec_abs(
            x2 - cx,
        ) + spec_abs(y2 - cy) == v2;
    assert(spec_abs(x1 - cx) + spec_abs(y1 - cy) <= v2 + 1);
    assert(GameState::grid_min_conn(g, t, x1, y1) <= spec_abs(x1 - cx) + spec_abs(y1 - cy));
}

/// At a cell whose minimal distance to a target cell is positive, one step
/// toward a nearest target cell stays on the board and brings the minimal
/// distance down by at least one.
proof fn lemma_min_dist_step(s: GameState, t: Cell, x: int, y: int) -> (r: (int, int))
    requires
        s.wf(),
        s.in_bounds(x, y),
        GameState::grid_min_conn(s.board@, t, x, y) != 0x7fffffff,
        GameState::grid_min_conn(s.board@, t, x, y) > 0,
    ensures
        ({
            let (nx, ny) = r;
            &&& s.in_bounds(nx, ny)
            &&& spec_abs(nx - x) + spec_abs(ny - y) == 1
            &&& 0 <= GameState::grid_min_conn(s.board@, t, nx, ny) <= GameState::grid_min_conn(
                s.board@,
                t,
                x,
                y,
            ) - 1
        }),
{
    let g = s.board@;
    let md = GameState::grid_min_conn(g, t, x, y);
    lemma_grid_min_conn_char(g, t, x, y);
    let (cx, cy) = choose|cx: int, cy: int|
        0 <= cy < g.len() && 0 <= cx < g[cy]@.len() && (#[trigger] g[cy]@[cx]) == t && spec_abs(
            x - cx,
        ) + spec_abs(y - cy) == md;
    let (nx, ny): (int, int) = if x < cx {
        (x + 1, y)
    } else if x > cx {
        (x - 1, y)
    } else if y < cy {
        (x, y + 1)
    } else {
        (x, y - 1)
    };
    assert(s.in_bounds(nx, ny));
    assert(spec_abs(nx - cx) + spec_abs(ny - cy) == md - 1);
    lemma_grid_min_conn_char(g, t, nx, ny);
    assert(GameState::grid_min_conn(g, t, nx, ny) <= md - 1);
    crate::scoring::lemma_grid_min_conn_bounds(g, t, nx, ny);
    (nx, ny)
}

/// A cell whose minimal distance to an opponent cell is zero is itself an
/// opponent cell.
proof fn lemma_min_dist_zero(s: GameState, t: Cell, x: int, y: int)
    requires
        s.wf(),
        s.in_bounds(x, y),
        GameState::grid_min_conn(s.board@, t, x, y) == 0,
    ensures
        s.cell_at(x, y) == t,
{
    let g = s.board@;
    lemma_grid_min_conn_char(g, t, x, y);
    let (cx, cy) = choose|cx: int, cy: int|
        0 <= cy < g.len() && 0 <= cx < g[cy]@.len() && (#[trigger] g[cy]@[cx]) == t && spec_abs(
            x - cx,
        ) + spec_abs(y - cy) == 0;
    assert(cx == x && cy == y);
}

/// Between this map and the sentinel, every visited cell holds at most the
/// minimal Manhattan distance to an opponent cell: breadth-first waves reach
/// each cell no later than its true distance.
#[verifier::spinoff_prover]
#[verifier::rlimit(60)]
proof fn lemma_dm_at_most_min_dist(s: GameState, dm: Seq<Vec<i32>>, x: int, y: int)
    requires
        s.wf(),
        distance_map_ok(s, dm),
        s.in_bounds(x, y),
        GameState::grid_min_conn(s.board@, s.opp_cell(), x, y) != 0x7fffffff,
    ensures
        0 <= dm_at(dm, x, y) <= GameState::grid_min_conn(s.board@, s.opp_cell(), x, y),
    decreases GameState::grid_min_conn(s.board@, s.opp_cell(), x, y),
{
    let g = s.board@;
    let t = s.opp_cell();
    let md = GameState::grid_min_conn(g, t, x, y);
    crate::scoring::lemma_grid_min_conn_bounds(g, t, x, y);
    if md == 0 {
        lemma_min_dist_zero(s, t, x, y);
        assert(dm_at(dm, x, y) == 0);
    } else {
        let (nx, ny) = lemma_min_dist_step(s, t, x, y);
        lemma_dm_at_most_min_dist(s, dm, nx, ny);
        let dn = dm_at(dm, nx, ny);
        assert(dn >= 0);
        reveal(nbrs_settled);
        assert(nbrs_settled(s, dm, nx, ny, dn));
        assert(dm_at(dm, x, y) != -1 && dm_at(dm, x, y) <= dn + 1);
        assert(dm_at(dm, x, y) <= md);
    }
}

/// Every visited cell holds at least the minimal Manhattan distance to an
/// opponent cell: a wave cannot outrun the step-by-step expansion.
#[verifier::spinoff_prover]
#[verifier::rlimit(60)]
proof fn lemma_dm_at_least_min_dist(s: GameState, dm: Seq<Vec<i32>>, x: int, y: int)
    requires
        s.wf(),
        distance_map_ok(s, dm),
        s.in_bounds(x, y),
        dm_at(dm, x, y) >= 0,
    ensures
        GameState::grid_min_conn(s.board@, s.opp_cell(), x, y) <= dm_at(dm, x, y),
    decreases dm_at(dm, x, y),
{
    let g = s.board@;
    let t = s.opp_cell();
    let v = dm_at(dm, x, y);
    if v == 0 {
        assert(s.cell_at(x, y) == t);
        lemma_grid_min_conn_char(g, t, x, y);
        assert(GameState::grid_min_conn(g, t, x, y) <= spec_abs(x - x) + spec_abs(y - y));
        crate::scoring::lemma_grid_min_conn_bounds(g, t, x, y);
    } else {
        reveal(some_nbr_at);
        assert(some_nbr_at(s, dm, x, y, v - 1));
        if s.in_bounds(x, y + 1) && dm_at(dm, x, y + 1) == v - 1 {
            lemma_dm_at_least_min_dist(s, dm, x, y + 1);
            lemma_min_conn_adjacent(g, t, x, y, x, y + 1);
        } else if s.in_bounds(x + 1, y) && dm_at(dm, x + 1, y) == v - 1 {
            lemma_dm_at_least_min_dist(s, dm, x + 1, y);
            lemma_min_conn_adjacent(g, t, x, y, x + 1, y);
        } else if s.in_bounds(x, y - 1) && dm_at(dm, x, y - 1) == v - 1 {
            lemma_dm_at_least_min_dist(s, dm, x, y - 1);
            lemma_min_conn_adjacent(g, t, x, y, x, y - 1);
        } else {
            lemma_dm_at_least_min_dist(s, dm, x - 1, y);
            lemma_min_conn_adjacent(g, t, x, y, x - 1, y);
        }
    }
}

/// The distance map is exact: every cell holds the shortest 4-connected
/// distance to the nearest opponent-owned cell — which, with waves expanding
/// through every cell, is the minimal Manhattan distance — and the sentinel
/// stands exactly where the board holds no opponent cell to reach.
#[verifier::spinoff_prover]
#[verifier::rlimit(60)]
pub proof fn lemma_distance_map_is_exact(s: GameState, dm: Seq<Vec<i32>>)
    requires
        s.wf(),
        distance_map_ok(s, dm),
    ensures
        forall|x: int, y: int|
            s.in_bounds(x, y) ==> #[trigger] dm_at(dm, x, y) == {
                let md = GameState::grid_min_conn(s.board@, s.opp_cell(), x, y);
                if md != 0x7fffffff {
                    md
                } else {
                    -1int
                }
            },
{
    let g = s.board@;
    let t = s.opp_cell();
    assert forall|x: int, y: int| s.in_bounds(x, y) implies #[trigger] dm_at(dm, x, y) == {
        let md = GameState::grid_min_conn(g, t, x, y);
        if md != 0x7fffffff {
            md
        } else {
            -1int
        }
    } by {
        let md = GameState::grid_min_conn(g, t, x, y);
        if md != 0x7fffffff {
            lemma_dm_at_most_min_dist(s, dm, x, y);
            lemma_dm_at_least_min_dist(s, dm, x, y);
        } else {
            if dm_at(dm, x, y) >= 0 {
                lemma_dm_at_least_min_dist(s, dm, x, y);
                assert(dm_at(dm, x, y) <= s.board_width * s.board_height);
                assert(s.board_width * s.board_height <= 0x1000 * 0x1000) by (nonlinear_arith)
                    requires
                        0 <= s.board_width <= 0x1000,
                        0 <= s.board_height <= 0x1000,
                ;
                assert(false);
            }
        }
    }
}

} // verus!
