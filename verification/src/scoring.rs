use vstd::prelude::*;

use crate::counting::{grid_count, lemma_grid_count_bounds, lemma_grid_count_take_step,
    lemma_row_count_take_step, row_count};
use crate::game_state::GameState;
use crate::types::{Cell, PieceOffset, Player};

verus! {

/// The predicate "this cell holds `target`", for counting cells of a board.
pub open spec fn cell_eq(target: Cell) -> spec_fn(Cell) -> bool {
    |c: Cell| c == target
}

impl GameState {
    /// Number of 4-connected neighbors of `(x, y)` that lie on the board and
    /// hold the cell value `c`.
    pub open spec fn nbr_count(self, x: int, y: int, c: Cell) -> int {
        (if self.in_bounds(x, y + 1) && self.cell_at(x, y + 1) == c {
            1int
        } else {
            0int
        }) + (if self.in_bounds(x + 1, y) && self.cell_at(x + 1, y) == c {
            1int
        } else {
            0int
        }) + (if self.in_bounds(x, y - 1) && self.cell_at(x, y - 1) == c {
            1int
        } else {
            0int
        }) + (if self.in_bounds(x - 1, y) && self.cell_at(x - 1, y) == c {
            1int
        } else {
            0int
        })
    }

    /// Count the 4-connected neighbors of `(x, y)` that hold `c`.
    fn count_cell_neighbors(&self, x: usize, y: usize, c: Cell) -> (r: i32)
        requires
            self.wf(),
            x < self.board_width,
            y < self.board_height,
        ensures
            r == self.nbr_count(x as int, y as int, c),
            0 <= r <= 4,
    {
        let mut count: i32 = 0;
        if y + 1 < self.board_height {
            if self.board[y + 1][x] == c {
                count = count + 1;
            }
        }
        if x + 1 < self.board_width {
            if self.board[y][x + 1] == c {
                count = count + 1;
            }
        }
        if y > 0 {
            if self.board[y - 1][x] == c {
                count = count + 1;
            }
        }
        if x > 0 {
            if self.board[y][x - 1] == c {
                count = count + 1;
            }
        }
        count
    }

    /// Number of empty 4-connected neighbors of `(x, y)`: the liberties a
    /// claim of that cell would have.
    pub fn count_empty_neighbors(&self, x: usize, y: usize) -> (r: i32)
        requires
            self.wf(),
            x < self.board_width,
            y < self.board_height,
        ensures
            r == self.nbr_count(x as int, y as int, Cell::Empty),
            0 <= r <= 4,
    {
        self.count_cell_neighbors(x, y, Cell::Empty)
    }

    /// Number of 4-connected neighbors of `(x, y)` owned by this player.
    pub fn count_my_neighbors(&self, x: usize, y: usize) -> (r: i32)
        requires
            self.wf(),
            x < self.board_width,
            y < self.board_height,
        ensures
            r == self.nbr_count(x as int, y as int, self.my_cell()),
            0 <= r <= 4,
    {
        let my = if self.player == Player::One {
            Cell::Player1
        } else {
            Cell::Player2
        };
        self.count_cell_neighbors(x, y, my)
    }

    /// Count the board cells that hold `target`.
    fn count_board_cells(&self, target: Cell) -> (r: i32)
        requires
            self.wf(),
        ensures
            r == grid_count(self.board@, cell_eq(target)),
            0 <= r <= self.board_width * self.board_height,
    {
        let p = Ghost(cell_eq(target));
        let mut count: i32 = 0;
        let mut y: usize = 0;
        proof {
            lemma_grid_count_bounds(self.board@, p@, self.board_width as int);
        }
        while y < self.board_height
            invariant
                self.wf(),
                p@ == cell_eq(target),
                y <= self.board_height,
                count == grid_count(self.board@.take(y as int), p@),
                0 <= count <= y * self.board_width,
            decreases self.board_height - y,
        {
            let row_len = self.board_width;
            let mut x: usize = 0;
            while x < row_len
                invariant
                    self.wf(),
                    p@ == cell_eq(target),
                    y < self.board_height,
                    row_len == self.board_width,
                    x <= row_len,
                    count == grid_count(self.board@.take(y as int), p@) + row_count(
                        self.board@[y as int]@.take(x as int),
                        p@,
                    ),
                    0 <= count <= y * self.board_width + x,
                decreases row_len - x,
            {
                proof {
                    lemma_row_count_take_step(self.board@[y as int]@, p@, x as int);
                    assert(y * self.board_width <= 0x1000 * 0x1000) by (nonlinear_arith)
                        requires
                            0 <= y <= 0x1000,
                            0 <= self.board_width <= 0x1000,
                    ;
                }
                if self.board[y][x] == target {
                    count = count + 1;
                }
                x = x + 1;
            }
            proof {
                lemma_grid_count_take_step(self.board@, p@, y as int);
                assert(self.board@[y as int]@.take(row_len as int) =~= self.board@[y as int]@);
                assert((y + 1) * self.board_width == y * self.board_width + self.board_width)
                    by (nonlinear_arith);
            }
            y = y + 1;
        }
        proof {
            assert(self.board@.take(self.board_height as int) =~= self.board@);
        }
        count
    }

    /// Count the empty cells of the board.
    pub fn count_total_empty_cells(&self) -> (r: i32)
        requires
            self.wf(),
        ensures
            r == grid_count(self.board@, cell_eq(Cell::Empty)),
            0 <= r <= self.board_width * self.board_height,
    {
        self.count_board_cells(Cell::Empty)
    }

    /// Count the cells owned by this player.
    pub fn count_my_territory(&self) -> (r: i32)
        requires
            self.wf(),
        ensures
            r == grid_count(self.board@, cell_eq(self.my_cell())),
            0 <= r <= self.board_width * self.board_height,
    {
        let my = if self.player == Player::One {
            Cell::Player1
        } else {
            Cell::Player2
        };
        self.count_board_cells(my)
    }

    /// Count the cells owned by the opponent.
    pub fn count_opponent_territory(&self) -> (r: i32)
        requires
            self.wf(),
        ensures
            r == grid_count(self.board@, cell_eq(self.opp_cell())),
            0 <= r <= self.board_width * self.board_height,
    {
        let op = if self.player == Player::One {
            Cell::Player2
        } else {
            Cell::Player1
        };
        self.count_board_cells(op)
    }

    /// The coordinates of every cell owned by this player, in row-major
    /// order.
    pub fn get_my_territory_positions(&self) -> (pos: Vec<(usize, usize)>)
        requires
            self.wf(),
        ensures
            forall|i: int|
                0 <= i < pos@.len() ==> {
                    let (px, py) = #[trigger] pos@[i];
                    px < self.board_width && py < self.board_height && self.cell_at(
                        px as int,
                        py as int,
                    ) == self.my_cell()
                },
            forall|px: usize, py: usize|
                px < self.board_width && py < self.board_height && self.cell_at(
                    px as int,
                    py as int,
                ) == self.my_cell() ==> pos@.contains((px, py)),
            forall|i: int, j: int|
                0 <= i < j < pos@.len() ==> ((#[trigger] pos@[i]).1 < (#[trigger] pos@[j]).1 || (
                pos@[i].1 == pos@[j].1 && pos@[i].0 < pos@[j].0)),
    {
        let my = if self.player == Player::One {
            Cell::Player1
        } else {
            Cell::Player2
        };
        let mut pos: Vec<(usize, usize)> = Vec::new();
        let mut y: usize = 0;
        while y < self.board_height
            invariant
                self.wf(),
                my == self.my_cell(),
                y <= self.board_height,
                forall|i: int|
                    0 <= i < pos@.len() ==> {
                        let (px, py) = #[trigger] pos@[i];
                        px < self.board_width && py < y && self.cell_at(px as int, py as int)
                            == self.my_cell()
                    },
                forall|px: usize, py: usize|
                    px < self.board_width && py < y && self.cell_at(px as int, py as int)
                        == self.my_cell() ==> pos@.contains((px, py)),
                forall|i: int, j: int|
                    0 <= i < j < pos@.len() ==> ((#[trigger] pos@[i]).1 < (#[trigger] pos@[j]).1
                        || (pos@[i].1 == pos@[j].1 && pos@[i].0 < pos@[j].0)),
            decreases self.board_height - y,
        {
            let mut x: usize = 0;
            while x < self.board_width
                invariant
                    self.wf(),
                    my == self.my_cell(),
                    y < self.board_height,
                    x <= self.board_width,
                    forall|i: int|
                        0 <= i < pos@.len() ==> {
                            let (px, py) = #[trigger] pos@[i];
                            px < self.board_width && (py < y || (py == y && px < x))
                                && self.cell_at(px as int, py as int) == self.my_cell()
                        },
                    forall|px: usize, py: usize|
                        px < self.board_width && (py < y || (py == y && px < x)) && self.cell_at(
                            px as int,
                            py as int,
                        ) == self.my_cell() ==> pos@.contains((px, py)),
                    forall|i: int, j: int|
                        0 <= i < j < pos@.len() ==> ((#[trigger] pos@[i]).1
                            < (#[trigger] pos@[j]).1 || (pos@[i].1 == pos@[j].1 && pos@[i].0
                            < pos@[j].0)),
                decreases self.board_width - x,
            {
                let here = self.board[y][x] == my;
                let ghost prev_pos = pos@;
                if here {
                    pos.push((x, y));
                }
                proof {
                    assert forall|px: usize, py: usize|
                        px < self.board_width && (py < y || (py == y && px < x + 1))
                            && self.cell_at(px as int, py as int) == self.my_cell() implies
                        pos@.contains((px, py)) by {
                        if py == y && px == x {
                            assert(here);
                            assert(pos@[pos@.len() - 1] == (px, py));
                        } else {
                            assert(prev_pos.contains((px, py)));
                            let w = choose|w: int|
                                0 <= w < prev_pos.len() && prev_pos[w] == (px, py);
                            assert(pos@[w] == (px, py));
                        }
                    }
                }
                x = x + 1;
            }
            y = y + 1;
        }
        pos
    }
}

} // verus!

verus! {

/// The guaranteed minimum score, assigned to a placement that claims no new
/// cell: a quarter of the score type's minimum, deep enough below every
/// weighted composite that any placement claiming at least one cell provably
/// ranks above it.
pub const MIN_SCORE: i64 = -0x2000000000000000;

pub open spec fn spec_min2(a: int, b: int) -> int {
    if a <= b {
        a
    } else {
        b
    }
}

pub open spec fn spec_abs(a: int) -> int {
    if a >= 0 {
        a
    } else {
        -a
    }
}

/// The scoring weights for (territory gain, liberties, opponent pressure,
/// heat), chosen by game phase: `occ / total` below 0.35 is the early game,
/// below 0.70 the mid game, and the rest the late game.
pub open spec fn phase_weights(occ: int, total: int) -> (int, int, int, int) {
    if 100 * occ < 35 * total {
        (150int, 40int, 15int, -5int)
    } else if 100 * occ < 70 * total {
        (120int, 20int, 35int, -15int)
    } else {
        (200int, 10int, 50int, -25int)
    }
}

impl GameState {
    /// The piece cell `o`, anchored at `(x, y)`, lands on an empty board
    /// cell: placing the piece there claims that cell.
    pub open spec fn claims_at(self, x: int, y: int, o: crate::types::PieceOffset) -> bool {
        self.in_bounds(x + o.dx, y + o.dy) && self.cell_at(x + o.dx, y + o.dy) == Cell::Empty
    }

    /// Number of empty board cells the placement claims.
    pub open spec fn cells_gained(self, x: int, y: int, offs: Seq<crate::types::PieceOffset>) -> int
        decreases offs.len(),
    {
        if offs.len() == 0 {
            0
        } else {
            self.cells_gained(x, y, offs.drop_last()) + if self.claims_at(x, y, offs.last()) {
                1int
            } else {
                0int
            }
        }
    }

    /// Total number of empty neighbors around the claimed cells: room for
    /// future expansion.
    pub open spec fn liberties_sum(self, x: int, y: int, offs: Seq<crate::types::PieceOffset>) -> int
        decreases offs.len(),
    {
        if offs.len() == 0 {
            0
        } else {
            self.liberties_sum(x, y, offs.drop_last()) + {
                let o = offs.last();
                if self.claims_at(x, y, o) {
                    self.nbr_count(x + o.dx, y + o.dy, Cell::Empty)
                } else {
                    0int
                }
            }
        }
    }

    /// Total number of opponent-owned neighbors around the claimed cells:
    /// blocking pressure against the opponent.
    pub open spec fn opp_pressure(self, x: int, y: int, offs: Seq<crate::types::PieceOffset>) -> int
        decreases offs.len(),
    {
        if offs.len() == 0 {
            0
        } else {
            self.opp_pressure(x, y, offs.drop_last()) + {
                let o = offs.last();
                if self.claims_at(x, y, o) {
                    self.nbr_count(x + o.dx, y + o.dy, self.opp_cell())
                } else {
                    0int
                }
            }
        }
    }

    /// Sum of the positive distance-map values at the claimed cells: how far
    /// the claim sits from the opponent's front.
    pub open spec fn heat_gain(
        self,
        dm: Seq<Vec<i32>>,
        x: int,
        y: int,
        offs: Seq<crate::types::PieceOffset>,
    ) -> int
        decreases offs.len(),
    {
        if offs.len() == 0 {
            0
        } else {
            self.heat_gain(dm, x, y, offs.drop_last()) + {
                let o = offs.last();
                if self.claims_at(x, y, o) && dm[y + o.dy]@[x + o.dx] > 0 {
                    dm[y + o.dy]@[x + o.dx] as int
                } else {
                    0int
                }
            }
        }
    }

    /// The smallest Manhattan distance from `(x, y)` to a cell of `row`
    /// (placed as board row `ry`) holding `my`, or `0x7fffffff` when none
    /// does.
    pub open spec fn row_min_conn(row: Seq<Cell>, my: Cell, ry: int, x: int, y: int) -> int
        decreases row.len(),
    {
        if row.len() == 0 {
            0x7fffffff
        } else {
            spec_min2(
                Self::row_min_conn(row.drop_last(), my, ry, x, y),
                if row.last() == my {
                    spec_abs(x - (row.len() - 1)) + spec_abs(y - ry)
                } else {
                    0x7fffffff
                },
            )
        }
    }

    /// The smallest Manhattan distance from `(x, y)` to a cell of the grid
    /// holding `my`, or `0x7fffffff` when none does.
    pub open spec fn grid_min_conn(g: Seq<Vec<Cell>>, my: Cell, x: int, y: int) -> int
        decreases g.len(),
    {
        if g.len() == 0 {
            0x7fffffff
        } else {
            spec_min2(
                Self::grid_min_conn(g.drop_last(), my, x, y),
                Self::row_min_conn(g.last()@, my, g.len() - 1, x, y),
            )
        }
    }

    /// The connectivity bonus of anchoring at `(x, y)`: up to 100 points for
    /// staying close to this player's existing territory, zero when the
    /// player owns nothing yet.
    pub open spec fn connectivity_bonus(self, x: int, y: int) -> int {
        let my_t = grid_count(self.board@, cell_eq(self.my_cell()));
        if my_t > 0 {
            (10 - spec_min2(Self::grid_min_conn(self.board@, self.my_cell(), x, y), 10)) * 10
        } else {
            0
        }
    }

    /// The composite score of anchoring the trimmed piece at `(x, y)`: the
    /// guaranteed minimum when the placement claims nothing; otherwise the
    /// phase-weighted sum of territory gain, liberties, opponent pressure and
    /// heat, plus a catch-up bonus on pressure when this player is behind,
    /// plus the connectivity bonus.
    pub open spec fn spec_score(
        self,
        dm: Seq<Vec<i32>>,
        x: int,
        y: int,
        offs: Seq<crate::types::PieceOffset>,
    ) -> int {
        let g = self.cells_gained(x, y, offs);
        if g == 0 {
            MIN_SCORE as int
        } else {
            let my_t = grid_count(self.board@, cell_eq(self.my_cell()));
            let op_t = grid_count(self.board@, cell_eq(self.opp_cell()));
            let w = phase_weights(my_t + op_t, self.board_width * self.board_height);
            g * w.0 + self.liberties_sum(x, y, offs) * w.1 + self.opp_pressure(x, y, offs) * w.2
                + self.heat_gain(dm, x, y, offs) * w.3 + (if my_t < op_t {
                self.opp_pressure(x, y, offs) * 20
            } else {
                0int
            }) + self.connectivity_bonus(x, y)
        }
    }
}

} // verus!

verus! {

/// Unrolls one step of the four score components over a growing prefix of
/// the offsets.
pub proof fn lemma_score_terms_take_step(
    s: GameState,
    dm: Seq<Vec<i32>>,
    x: int,
    y: int,
    offs: Seq<PieceOffset>,
    i: int,
)
    requires
        0 <= i < offs.len(),
    ensures
        s.cells_gained(x, y, offs.take(i + 1)) == s.cells_gained(x, y, offs.take(i)) + (
        if s.claims_at(x, y, offs[i]) {
            1int
        } else {
            0int
        }),
        s.liberties_sum(x, y, offs.take(i + 1)) == s.liberties_sum(x, y, offs.take(i)) + (
        if s.claims_at(x, y, offs[i]) {
            s.nbr_count(x + offs[i].dx, y + offs[i].dy, Cell::Empty)
        } else {
            0int
        }),
        s.opp_pressure(x, y, offs.take(i + 1)) == s.opp_pressure(x, y, offs.take(i)) + (
        if s.claims_at(x, y, offs[i]) {
            s.nbr_count(x + offs[i].dx, y + offs[i].dy, s.opp_cell())
        } else {
            0int
        }),
        s.heat_gain(dm, x, y, offs.take(i + 1)) == s.heat_gain(dm, x, y, offs.take(i)) + (
        if s.claims_at(x, y, offs[i]) && dm[y + offs[i].dy]@[x + offs[i].dx] > 0 {
            dm[y + offs[i].dy]@[x + offs[i].dx] as int
        } else {
            0int
        }),
{
    assert(offs.take(i + 1).drop_last() =~= offs.take(i));
    assert(offs.take(i + 1).last() == offs[i]);
}

/// Unrolls one step of `row_min_conn` over a growing prefix of a row.
pub proof fn lemma_row_min_conn_take_step(
    row: Seq<Cell>,
    my: Cell,
    ry: int,
    x: int,
    y: int,
    i: int,
)
    requires
        0 <= i < row.len(),
    ensures
        GameState::row_min_conn(row.take(i + 1), my, ry, x, y) == spec_min2(
            GameState::row_min_conn(row.take(i), my, ry, x, y),
            if row[i] == my {
                spec_abs(x - i) + spec_abs(y - ry)
            } else {
                0x7fffffff
            },
        ),
{
    assert(row.take(i + 1).drop_last() =~= row.take(i));
    assert(row.take(i + 1).last() == row[i]);
}

/// Unrolls one step of `grid_min_conn` over a growing prefix of the rows.
pub proof fn lemma_grid_min_conn_take_step(g: Seq<Vec<Cell>>, my: Cell, x: int, y: int, i: int)
    requires
        0 <= i < g.len(),
    ensures
        GameState::grid_min_conn(g.take(i + 1), my, x, y) == spec_min2(
            GameState::grid_min_conn(g.take(i), my, x, y),
            GameState::row_min_conn(g[i]@, my, i, x, y),
        ),
{
    assert(g.take(i + 1).drop_last() =~= g.take(i));
    assert(g.take(i + 1).last() == g[i]);
}

/// `row_min_conn` never goes below zero nor above the sentinel.
pub proof fn lemma_row_min_conn_bounds(row: Seq<Cell>, my: Cell, ry: int, x: int, y: int)
    ensures
        0 <= GameState::row_min_conn(row, my, ry, x, y) <= 0x7fffffff,
    decreases row.len(),
{
    if row.len() > 0 {
        lemma_row_min_conn_bounds(row.drop_last(), my, ry, x, y);
    }
}

/// `grid_min_conn` never goes below zero nor above the sentinel.
pub proof fn lemma_grid_min_conn_bounds(g: Seq<Vec<Cell>>, my: Cell, x: int, y: int)
    ensures
        0 <= GameState::grid_min_conn(g, my, x, y) <= 0x7fffffff,
    decreases g.len(),
{
    if g.len() > 0 {
        lemma_grid_min_conn_bounds(g.drop_last(), my, x, y);
        lemma_row_min_conn_bounds(g.last()@, my, g.len() - 1, x, y);
    }
}

impl GameState {
    /// Score anchoring the trimmed piece at `(x, y)` against the given
    /// opponent-distance map.
    pub fn score_move(
        &self,
        x: i32,
        y: i32,
        dist: &Vec<Vec<i32>>,
        piece_offsets: &Vec<PieceOffset>,
    ) -> (s: i64)
        requires
            self.wf(),
            dist@.len() == self.board_height,
            forall|r: int| 0 <= r < dist@.len() ==> (#[trigger] dist@[r])@.len() == self.board_width,
            self.offsets_in_bounds(x as int, y as int, piece_offsets@),
            piece_offsets@.len() <= 0x1000000,
        ensures
            s == self.spec_score(dist@, x as int, y as int, piece_offsets@),
            self.cells_gained(x as int, y as int, piece_offsets@) >= 1 ==> s > MIN_SCORE,
    {
        let my_t = self.count_my_territory();
        let op_t = self.count_opponent_territory();
        proof {
            assert(self.board_width * self.board_height <= 0x1000 * 0x1000) by (nonlinear_arith)
                requires
                    0 <= self.board_width <= 0x1000,
                    0 <= self.board_height <= 0x1000,
            ;
        }
        let occ: i64 = my_t as i64 + op_t as i64;
        let total: i64 = (self.board_width * self.board_height) as i64;
        let my = if self.player == Player::One {
            Cell::Player1
        } else {
            Cell::Player2
        };
        let op = if self.player == Player::One {
            Cell::Player2
        } else {
            Cell::Player1
        };

        let mut new_cells: i64 = 0;
        let mut liberties: i64 = 0;
        let mut heat_sum: i64 = 0;
        let mut adj_op: i64 = 0;
        let n = piece_offsets.len();
        let mut i: usize = 0;
        while i < n
            invariant
                self.wf(),
                n == piece_offsets@.len(),
                i <= n,
                n <= 0x1000000,
                op == self.opp_cell(),
                dist@.len() == self.board_height,
                forall|r: int|
                    0 <= r < dist@.len() ==> (#[trigger] dist@[r])@.len() == self.board_width,
                self.offsets_in_bounds(x as int, y as int, piece_offsets@),
                new_cells == self.cells_gained(x as int, y as int, piece_offsets@.take(i as int)),
                liberties == self.liberties_sum(x as int, y as int, piece_offsets@.take(i as int)),
                adj_op == self.opp_pressure(x as int, y as int, piece_offsets@.take(i as int)),
                heat_sum == self.heat_gain(
                    dist@,
                    x as int,
                    y as int,
                    piece_offsets@.take(i as int),
                ),
                0 <= new_cells <= i,
                0 <= liberties <= 4 * i,
                0 <= adj_op <= 4 * i,
                0 <= heat_sum <= i * 0x80000000,
            decreases n - i,
        {
            let off = piece_offsets[i];
            proof {
                lemma_score_terms_take_step(
                    *self,
                    dist@,
                    x as int,
                    y as int,
                    piece_offsets@,
                    i as int,
                );
                assert(self.in_bounds(
                    x + (piece_offsets@[i as int]).dx,
                    y + piece_offsets@[i as int].dy,
                ));
                assert((i + 1) * 0x80000000int == i * 0x80000000 + 0x80000000);
            }
            let bx = x as i64 + off.dx as i64;
            let by = y as i64 + off.dy as i64;
            let bxu = bx as usize;
            let byu = by as usize;
            if self.board[byu][bxu] == Cell::Empty {
                new_cells = new_cells + 1;
                let lib = self.count_empty_neighbors(bxu, byu);
                liberties = liberties + lib as i64;
                let d = dist[byu][bxu];
                if d > 0 {
                    heat_sum = heat_sum + d as i64;
                }
                let pr = self.count_cell_neighbors(bxu, byu, op);
                adj_op = adj_op + pr as i64;
            }
            i = i + 1;
        }
        proof {
            assert(piece_offsets@.take(n as int) =~= piece_offsets@);
            assert(heat_sum <= 0x80000000000000) by (nonlinear_arith)
                requires
                    heat_sum <= (n as int) * 0x80000000,
                    0 <= n <= 0x1000000,
            ;
        }

        if new_cells == 0 {
            return MIN_SCORE;
        }
        proof {
            assert(0 <= new_cells * 150 <= 200 * 0x1000000 && 0 <= new_cells * 120 <= 200
                * 0x1000000 && 0 <= new_cells * 200 <= 200 * 0x1000000) by (nonlinear_arith)
                requires
                    0 <= new_cells <= 0x1000000,
            ;
            assert(0 <= liberties * 40 <= 40 * 0x4000000 && 0 <= liberties * 20 <= 40 * 0x4000000
                && 0 <= liberties * 10 <= 40 * 0x4000000) by (nonlinear_arith)
                requires
                    0 <= liberties <= 0x4000000,
            ;
            assert(0 <= adj_op * 15 <= 50 * 0x4000000 && 0 <= adj_op * 35 <= 50 * 0x4000000 && 0
                <= adj_op * 50 <= 50 * 0x4000000 && 0 <= adj_op * 20 <= 50 * 0x4000000)
                by (nonlinear_arith)
                requires
                    0 <= adj_op <= 0x4000000,
            ;
            assert(-25 * 0x80000000000000 <= heat_sum * (-5) <= 0 && -25 * 0x80000000000000
                <= heat_sum * (-15) <= 0 && -25 * 0x80000000000000 <= heat_sum * (-25) <= 0)
                by (nonlinear_arith)
                requires
                    0 <= heat_sum <= 0x80000000000000,
            ;
        }

        let mut s: i64;
        if 100 * occ < 35 * total {
            s = new_cells * 150 + liberties * 40 + adj_op * 15 + heat_sum * (-5);
        } else if 100 * occ < 70 * total {
            s = new_cells * 120 + liberties * 20 + adj_op * 35 + heat_sum * (-15);
        } else {
            s = new_cells * 200 + liberties * 10 + adj_op * 50 + heat_sum * (-25);
        }

        if my_t < op_t {
            s = s + adj_op * 20;
        }

        let mut best_conn: i64 = 0x7fffffff;
        let mut cy: usize = 0;
        while cy < self.board_height
            invariant
                self.wf(),
                my == self.my_cell(),
                cy <= self.board_height,
                best_conn == Self::grid_min_conn(
                    self.board@.take(cy as int),
                    my,
                    x as int,
                    y as int,
                ),
                0 <= best_conn <= 0x7fffffff,
            decreases self.board_height - cy,
        {
            let mut cx: usize = 0;
            while cx < self.board_width
                invariant
                    self.wf(),
                    my == self.my_cell(),
                    cy < self.board_height,
                    cx <= self.board_width,
                    best_conn == spec_min2(
                        Self::grid_min_conn(self.board@.take(cy as int), my, x as int, y as int),
                        Self::row_min_conn(
                            self.board@[cy as int]@.take(cx as int),
                            my,
                            cy as int,
                            x as int,
                            y as int,
                        ),
                    ),
                    0 <= best_conn <= 0x7fffffff,
                decreases self.board_width - cx,
            {
                proof {
                    lemma_row_min_conn_take_step(
                        self.board@[cy as int]@,
                        my,
                        cy as int,
                        x as int,
                        y as int,
                        cx as int,
                    );
                }
                if self.board[cy][cx] == my {
                    let ddx = x as i64 - cx as i64;
                    let adx = if ddx >= 0 {
                        ddx
                    } else {
                        -ddx
                    };
                    let ddy = y as i64 - cy as i64;
                    let ady = if ddy >= 0 {
                        ddy
                    } else {
                        -ddy
                    };
                    let d = adx + ady;
                    if d < best_conn {
                        best_conn = d;
                    }
                }
                cx = cx + 1;
            }
            proof {
                lemma_grid_min_conn_take_step(self.board@, my, x as int, y as int, cy as int);
                assert(self.board@[cy as int]@.take(self.board_width as int) =~= self.board@[cy
                    as int]@);
            }
            cy = cy + 1;
        }
        proof {
            assert(self.board@.take(self.board_height as int) =~= self.board@);
        }

        if my_t > 0 {
            let bc = if best_conn < 10 {
                best_conn
            } else {
                10
            };
            proof {
                assert(0 <= (10 - bc) * 10 <= 100) by (nonlinear_arith)
                    requires
                        0 <= bc <= 10,
                ;
            }
            s = s + (10 - bc) * 10;
        }

        proof {
            lemma_gaining_beats_degenerate(*self, dist@, x as int, y as int, piece_offsets@);
        }
        s
    }
}

} // verus!

verus! {

/// The four score components are non-negative and bounded: the counting ones
/// by the number of piece cells, the heat sum by that number times the
/// largest value a distance-map entry can hold.
pub proof fn lemma_score_terms_bounds(
    s: GameState,
    dm: Seq<Vec<i32>>,
    x: int,
    y: int,
    offs: Seq<PieceOffset>,
)
    ensures
        0 <= s.cells_gained(x, y, offs) <= offs.len(),
        0 <= s.liberties_sum(x, y, offs) <= 4 * offs.len(),
        0 <= s.opp_pressure(x, y, offs) <= 4 * offs.len(),
        0 <= s.heat_gain(dm, x, y, offs) <= offs.len() * 0x80000000,
    decreases offs.len(),
{
    if offs.len() > 0 {
        lemma_score_terms_bounds(s, dm, x, y, offs.drop_last());
        assert((offs.len() - 1) * 0x80000000int + 0x80000000 == offs.len() * 0x80000000)
            by (nonlinear_arith);
    }
}

/// A placement that claims no empty cell scores exactly the guaranteed
/// minimum.
pub proof fn lemma_degenerate_scores_minimum(
    s: GameState,
    dm: Seq<Vec<i32>>,
    x: int,
    y: int,
    offs: Seq<PieceOffset>,
)
    requires
        s.cells_gained(x, y, offs) == 0,
    ensures
        s.spec_score(dm, x, y, offs) == MIN_SCORE as int,
{
}

/// All else equal — liberties, opponent pressure, heat, and connectivity
/// bonus — a placement with strictly greater territory gain scores strictly
/// higher.
pub proof fn lemma_score_monotone_in_gain(
    s: GameState,
    dm: Seq<Vec<i32>>,
    x1: int,
    y1: int,
    offs1: Seq<PieceOffset>,
    x2: int,
    y2: int,
    offs2: Seq<PieceOffset>,
)
    requires
        s.cells_gained(x1, y1, offs1) > s.cells_gained(x2, y2, offs2) >= 1,
        s.liberties_sum(x1, y1, offs1) == s.liberties_sum(x2, y2, offs2),
        s.opp_pressure(x1, y1, offs1) == s.opp_pressure(x2, y2, offs2),
        s.heat_gain(dm, x1, y1, offs1) == s.heat_gain(dm, x2, y2, offs2),
        s.connectivity_bonus(x1, y1) == s.connectivity_bonus(x2, y2),
    ensures
        s.spec_score(dm, x1, y1, offs1) > s.spec_score(dm, x2, y2, offs2),
{
    let g1 = s.cells_gained(x1, y1, offs1);
    let g2 = s.cells_gained(x2, y2, offs2);
    let my_t = grid_count(s.board@, cell_eq(s.my_cell()));
    let op_t = grid_count(s.board@, cell_eq(s.opp_cell()));
    let w = phase_weights(my_t + op_t, s.board_width * s.board_height);
    assert(g1 * w.0 > g2 * w.0) by (nonlinear_arith)
        requires
            g1 > g2,
            w.0 >= 1,
    ;
}

/// A placement that claims at least one cell always outranks the guaranteed
/// minimum: a degenerate placement is never preferred over one that gains
/// territory. The only hypothesis is the piece-cell cap that the dimension
/// bound already forces.
pub proof fn lemma_gaining_beats_degenerate(
    s: GameState,
    dm: Seq<Vec<i32>>,
    x: int,
    y: int,
    offs: Seq<PieceOffset>,
)
    requires
        s.cells_gained(x, y, offs) >= 1,
        offs.len() <= 0x1000000,
    ensures
        s.spec_score(dm, x, y, offs) > MIN_SCORE as int,
{
    let g = s.cells_gained(x, y, offs);
    let lib = s.liberties_sum(x, y, offs);
    let adj = s.opp_pressure(x, y, offs);
    let heat = s.heat_gain(dm, x, y, offs);
    let my_t = grid_count(s.board@, cell_eq(s.my_cell()));
    let op_t = grid_count(s.board@, cell_eq(s.opp_cell()));
    let w = phase_weights(my_t + op_t, s.board_width * s.board_height);
    lemma_score_terms_bounds(s, dm, x, y, offs);
    lemma_grid_min_conn_bounds(s.board@, s.my_cell(), x, y);
    assert(g * w.0 >= 100) by (nonlinear_arith)
        requires
            g >= 1,
            w.0 >= 100,
    ;
    assert(lib * w.1 >= 0 && adj * w.2 >= 0 && adj * 20 >= 0) by (nonlinear_arith)
        requires
            lib >= 0,
            adj >= 0,
            w.1 >= 0,
            w.2 >= 0,
    ;
    assert(heat <= 0x80000000000000) by (nonlinear_arith)
        requires
            heat <= offs.len() * 0x80000000,
            offs.len() <= 0x1000000,
    ;
    assert(heat * w.3 >= -25 * 0x80000000000000) by (nonlinear_arith)
        requires
            0 <= heat <= 0x80000000000000,
            -25 <= w.3 <= -5,
    ;
    let m = spec_min2(GameState::grid_min_conn(s.board@, s.my_cell(), x, y), 10);
    assert((10 - m) * 10 >= 0) by (nonlinear_arith)
        requires
            0 <= m <= 10,
    ;
}

} // verus!
