use vstd::prelude::*;
use vstd::string::StrSliceExecFns;

use crate::types::{trimmed_shape, Cell, PieceCell, PieceOffset, Player};

verus! {

/// Upper bound on board and piece dimensions. It keeps every coordinate and
/// score computation inside the range of the machine integer types used by
/// the executable code.
pub const MAX_DIM: usize = 0x1000;

/// The state of one turn: the board snapshot, the current piece, and the
/// scoring weights.
pub struct GameState {
    /// The player this engine is choosing a move for.
    pub player: Player,
    /// Width of the board.
    pub board_width: usize,
    /// Height of the board.
    pub board_height: usize,
    /// The board, `board_height` rows of `board_width` cells.
    pub board: Vec<Vec<Cell>>,
    /// Width of the current piece grid.
    pub piece_width: usize,
    /// Height of the current piece grid.
    pub piece_height: usize,
    /// The piece, `piece_height` rows of `piece_width` cells.
    pub piece: Vec<Vec<PieceCell>>,
    /// Symbols that mark this player's cells in the textual protocol.
    pub my_symbols: (char, char),
    /// Symbols that mark the opponent's cells in the textual protocol.
    pub opponent_symbols: (char, char),
    /// Weight of the heat component of the heuristic.
    pub heat_weight: i32,
    /// Weight of the expansion component of the heuristic.
    pub expansion_weight: i32,
    /// Weight of the blocking component of the heuristic.
    pub blocking_weight: i32,
    /// Weight of the compactness component of the heuristic.
    pub compactness_weight: i32,
}

impl GameState {
    /// The board is a rectangle of the declared dimensions, within `MAX_DIM`.
    pub open spec fn board_wf(self) -> bool {
        &&& self.board@.len() == self.board_height
        &&& forall|r: int|
            0 <= r < self.board@.len() ==> (#[trigger] self.board@[r])@.len() == self.board_width
        &&& self.board_width <= MAX_DIM
        &&& self.board_height <= MAX_DIM
    }

    /// The piece grid is a rectangle of the declared dimensions, within
    /// `MAX_DIM`.
    pub open spec fn piece_wf(self) -> bool {
        &&& self.piece@.len() == self.piece_height
        &&& forall|r: int|
            0 <= r < self.piece@.len() ==> (#[trigger] self.piece@[r])@.len() == self.piece_width
        &&& self.piece_width <= MAX_DIM
        &&& self.piece_height <= MAX_DIM
    }

    pub open spec fn wf(self) -> bool {
        self.board_wf() && self.piece_wf()
    }

    /// The cell value that marks this player's territory.
    pub open spec fn my_cell(self) -> Cell {
        if self.player == Player::One {
            Cell::Player1
        } else {
            Cell::Player2
        }
    }

    /// The cell value that marks the opponent's territory.
    pub open spec fn opp_cell(self) -> Cell {
        if self.player == Player::One {
            Cell::Player2
        } else {
            Cell::Player1
        }
    }

    pub open spec fn in_bounds(self, x: int, y: int) -> bool {
        0 <= x < self.board_width && 0 <= y < self.board_height
    }

    pub open spec fn cell_at(self, x: int, y: int) -> Cell {
        self.board@[y]@[x]
    }

    /// A fresh state: player one, no board, no piece, and the default
    /// heuristic weights.
    pub fn new() -> (s: GameState)
        ensures
            s.player == Player::One,
            s.board_width == 0,
            s.board_height == 0,
            s.board@.len() == 0,
            s.piece_width == 0,
            s.piece_height == 0,
            s.piece@.len() == 0,
            s.my_symbols == ('@', 'a'),
            s.opponent_symbols == ('$', 's'),
            s.heat_weight == 50,
            s.expansion_weight == 30,
            s.blocking_weight == 20,
            s.compactness_weight == -10,
            s.wf(),
    {
        GameState {
            player: Player::One,
            board_width: 0,
            board_height: 0,
            board: Vec::new(),
            piece_width: 0,
            piece_height: 0,
            piece: Vec::new(),
            my_symbols: ('@', 'a'),
            opponent_symbols: ('$', 's'),
            heat_weight: 50,
            expansion_weight: 30,
            blocking_weight: 20,
            compactness_weight: -10,
        }
    }

    /// Record which player this engine plays, together with the protocol
    /// symbols of both sides.
    pub fn set_player(&mut self, p: Player)
        ensures
            final(self).player == p,
            final(self).my_symbols == (if p == Player::One {
                ('@', 'a')
            } else {
                ('$', 's')
            }),
            final(self).opponent_symbols == (if p == Player::One {
                ('$', 's')
            } else {
                ('@', 'a')
            }),
            final(self).board_width == old(self).board_width,
            final(self).board_height == old(self).board_height,
            final(self).board == old(self).board,
            final(self).piece_width == old(self).piece_width,
            final(self).piece_height == old(self).piece_height,
            final(self).piece == old(self).piece,
            final(self).heat_weight == old(self).heat_weight,
            final(self).expansion_weight == old(self).expansion_weight,
            final(self).blocking_weight == old(self).blocking_weight,
            final(self).compactness_weight == old(self).compactness_weight,
    {
        match p {
            Player::One => {
                self.player = Player::One;
                self.my_symbols = ('@', 'a');
                self.opponent_symbols = ('$', 's');
            },
            Player::Two => {
                self.player = Player::Two;
                self.my_symbols = ('$', 's');
                self.opponent_symbols = ('@', 'a');
            },
        }
    }

    /// Install an all-empty board of the given dimensions.
    pub fn init_board(&mut self, width: usize, height: usize)
        requires
            width <= MAX_DIM,
            height <= MAX_DIM,
        ensures
            final(self).board_width == width,
            final(self).board_height == height,
            final(self).board@.len() == height,
            forall|r: int|
                0 <= r < height ==> (#[trigger] final(self).board@[r])@.len() == width,
            forall|r: int, c: int|
                0 <= r < height && 0 <= c < width ==> final(self).cell_at(c, r) == Cell::Empty,
            final(self).board_wf(),
            final(self).player == old(self).player,
            final(self).piece_width == old(self).piece_width,
            final(self).piece_height == old(self).piece_height,
            final(self).piece == old(self).piece,
            final(self).my_symbols == old(self).my_symbols,
            final(self).opponent_symbols == old(self).opponent_symbols,
            final(self).heat_weight == old(self).heat_weight,
            final(self).expansion_weight == old(self).expansion_weight,
            final(self).blocking_weight == old(self).blocking_weight,
            final(self).compactness_weight == old(self).compactness_weight,
    {
        let mut board: Vec<Vec<Cell>> = Vec::new();
        let mut r: usize = 0;
        while r < height
            invariant
                r <= height,
                board@.len() == r,
                forall|i: int| 0 <= i < r ==> (#[trigger] board@[i])@.len() == width,
                forall|i: int, j: int|
                    0 <= i < r && 0 <= j < width ==> board@[i]@[j] == Cell::Empty,
            decreases height - r,
        {
            let mut row: Vec<Cell> = Vec::new();
            let mut c: usize = 0;
            while c < width
                invariant
                    c <= width,
                    row@.len() == c,
                    forall|j: int| 0 <= j < c ==> row@[j] == Cell::Empty,
                decreases width - c,
            {
                row.push(Cell::Empty);
                c = c + 1;
            }
            board.push(row);
            r = r + 1;
        }
        self.board_width = width;
        self.board_height = height;
        self.board = board;
    }

    /// Install an all-empty piece grid of the given dimensions.
    pub fn init_piece(&mut self, width: usize, height: usize)
        requires
            width <= MAX_DIM,
            height <= MAX_DIM,
        ensures
            final(self).piece_width == width,
            final(self).piece_height == height,
            final(self).piece@.len() == height,
            forall|r: int|
                0 <= r < height ==> (#[trigger] final(self).piece@[r])@.len() == width,
            forall|r: int, c: int|
                0 <= r < height && 0 <= c < width ==> final(self).piece@[r]@[c]
                    == PieceCell::Empty,
            final(self).piece_wf(),
            final(self).player == old(self).player,
            final(self).board_width == old(self).board_width,
            final(self).board_height == old(self).board_height,
            final(self).board == old(self).board,
            final(self).my_symbols == old(self).my_symbols,
            final(self).opponent_symbols == old(self).opponent_symbols,
            final(self).heat_weight == old(self).heat_weight,
            final(self).expansion_weight == old(self).expansion_weight,
            final(self).blocking_weight == old(self).blocking_weight,
            final(self).compactness_weight == old(self).compactness_weight,
    {
        let mut piece: Vec<Vec<PieceCell>> = Vec::new();
        let mut r: usize = 0;
        while r < height
            invariant
                r <= height,
                piece@.len() == r,
                forall|i: int| 0 <= i < r ==> (#[trigger] piece@[i])@.len() == width,
                forall|i: int, j: int|
                    0 <= i < r && 0 <= j < width ==> piece@[i]@[j] == PieceCell::Empty,
            decreases height - r,
        {
            let mut row: Vec<PieceCell> = Vec::new();
            let mut c: usize = 0;
            while c < width
                invariant
                    c <= width,
                    row@.len() == c,
                    forall|j: int| 0 <= j < c ==> row@[j] == PieceCell::Empty,
                decreases width - c,
            {
                row.push(PieceCell::Empty);
                c = c + 1;
            }
            piece.push(row);
            r = r + 1;
        }
        self.piece_width = width;
        self.piece_height = height;
        self.piece = piece;
    }
}

} // verus!

verus! {

/// The cell `(r, c)` of the piece grid `p` is filled.
pub open spec fn filled_at(p: Seq<Vec<PieceCell>>, r: int, c: int) -> bool {
    0 <= r < p.len() && 0 <= c < p[r]@.len() && p[r]@[c] == PieceCell::Filled
}

/// The piece grid has at least one filled cell.
pub open spec fn has_filled(p: Seq<Vec<PieceCell>>) -> bool {
    exists|r: int, c: int| filled_at(p, r, c)
}

/// The offsets of the filled cells of one piece row `row` (placed as row
/// `r`), in ascending column order.
pub open spec fn row_offsets(row: Seq<PieceCell>, r: int) -> Seq<PieceOffset>
    decreases row.len(),
{
    if row.len() == 0 {
        Seq::empty()
    } else {
        row_offsets(row.drop_last(), r) + if row.last() == PieceCell::Filled {
            seq![PieceOffset { dx: (row.len() - 1) as i32, dy: r as i32 }]
        } else {
            Seq::empty()
        }
    }
}

/// The offsets of the filled cells of the first `r` rows of the piece grid,
/// in row-major order.
pub open spec fn grid_offsets_upto(p: Seq<Vec<PieceCell>>, r: int) -> Seq<PieceOffset>
    decreases r,
{
    if r <= 0 {
        Seq::empty()
    } else {
        grid_offsets_upto(p, r - 1) + row_offsets(p[r - 1]@, r - 1)
    }
}

/// The offsets of all filled cells of the piece grid, in row-major order.
pub open spec fn grid_offsets(p: Seq<Vec<PieceCell>>) -> Seq<PieceOffset> {
    grid_offsets_upto(p, p.len() as int)
}

/// Membership in a concatenation is membership in either part.
pub proof fn lemma_contains_add<T>(a: Seq<T>, b: Seq<T>, o: T)
    ensures
        (a + b).contains(o) <==> (a.contains(o) || b.contains(o)),
{
    if a.contains(o) {
        let i = choose|i: int| 0 <= i < a.len() && a[i] == o;
        assert((a + b)[i] == o);
    }
    if b.contains(o) {
        let i = choose|i: int| 0 <= i < b.len() && b[i] == o;
        assert((a + b)[a.len() + i] == o);
    }
    if (a + b).contains(o) {
        let i = choose|i: int| 0 <= i < (a + b).len() && (a + b)[i] == o;
        if i < a.len() {
            assert(a[i] == o);
        } else {
            assert(b[i - a.len()] == o);
        }
    }
}

/// `row_offsets` holds exactly the filled columns of the row.
pub proof fn lemma_row_offsets_membership(row: Seq<PieceCell>, r: int, o: PieceOffset)
    requires
        row.len() <= 0x1000,
        0 <= r <= 0x1000,
    ensures
        row_offsets(row, r).contains(o) <==> (0 <= o.dx < row.len() && o.dy == r && row[o.dx as int]
            == PieceCell::Filled),
    decreases row.len(),
{
    if row.len() == 0 {
    } else {
        lemma_row_offsets_membership(row.drop_last(), r, o);
        let tail: Seq<PieceOffset> = if row.last() == PieceCell::Filled {
            seq![PieceOffset { dx: (row.len() - 1) as i32, dy: r as i32 }]
        } else {
            Seq::empty()
        };
        lemma_contains_add(row_offsets(row.drop_last(), r), tail, o);
        if tail.contains(o) {
            assert(o == tail[0]);
        }
        if 0 <= o.dx < row.len() && o.dy == r && row[o.dx as int] == PieceCell::Filled {
            if o.dx == row.len() - 1 {
                assert(row.last() == PieceCell::Filled);
                assert(tail[0] == o);
                assert(tail.contains(o));
            } else {
                assert(row.drop_last()[o.dx as int] == row[o.dx as int]);
            }
        }
    }
}

/// `grid_offsets_upto` holds exactly the filled cells of the first `r` rows.
pub proof fn lemma_grid_offsets_upto_membership(p: Seq<Vec<PieceCell>>, r: int, o: PieceOffset)
    requires
        p.len() <= 0x1000,
        0 <= r <= p.len(),
        forall|i: int| 0 <= i < p.len() ==> (#[trigger] p[i])@.len() <= 0x1000,
    ensures
        grid_offsets_upto(p, r).contains(o) <==> (0 <= o.dy < r && 0 <= o.dx < p[o.dy as int]@.len()
            && p[o.dy as int]@[o.dx as int] == PieceCell::Filled),
    decreases r,
{
    if r <= 0 {
    } else {
        lemma_grid_offsets_upto_membership(p, r - 1, o);
        lemma_contains_add(grid_offsets_upto(p, r - 1), row_offsets(p[r - 1]@, r - 1), o);
        lemma_row_offsets_membership(p[r - 1]@, r - 1, o);
    }
}

/// `grid_offsets` holds exactly the filled cells of the piece grid.
pub proof fn lemma_grid_offsets_membership(p: Seq<Vec<PieceCell>>, o: PieceOffset)
    requires
        p.len() <= 0x1000,
        forall|i: int| 0 <= i < p.len() ==> (#[trigger] p[i])@.len() <= 0x1000,
    ensures
        grid_offsets(p).contains(o) <==> filled_at(p, o.dy as int, o.dx as int),
{
    lemma_grid_offsets_upto_membership(p, p.len() as int, o);
}

/// `grid_offsets_upto` reads only the first `r` rows: two grids that agree on
/// them get the same offsets.
pub proof fn lemma_grid_offsets_upto_prefix(p1: Seq<Vec<PieceCell>>, p2: Seq<Vec<PieceCell>>, r: int)
    requires
        0 <= r <= p1.len(),
        r <= p2.len(),
        forall|i: int| 0 <= i < r ==> p1[i]@ =~= (#[trigger] p2[i])@,
    ensures
        grid_offsets_upto(p1, r) == grid_offsets_upto(p2, r),
    decreases r,
{
    if r > 0 {
        lemma_grid_offsets_upto_prefix(p1, p2, r - 1);
    }
}

/// Appending one cell to a row appends its offset when it is filled.
pub proof fn lemma_row_offsets_push(row: Seq<PieceCell>, r: int, x: PieceCell)
    ensures
        row_offsets(row.push(x), r) == row_offsets(row, r) + if x == PieceCell::Filled {
            seq![PieceOffset { dx: row.len() as i32, dy: r as i32 }]
        } else {
            Seq::empty()
        },
{
    assert(row.push(x).drop_last() =~= row);
    assert(row.push(x).last() == x);
}

} // verus!

verus! {

impl GameState {
    /// Trim the piece to the minimal bounding box of its filled cells.
    ///
    /// Returns the filled-cell offsets of the trimmed piece in row-major
    /// order, together with the anchor correction: the displacement of the
    /// box's top-left corner inside the original piece grid. A piece without
    /// a filled cell is left unchanged and yields no offsets. Otherwise the
    /// offsets are non-empty and span the whole box: both extreme columns and
    /// both extreme rows of the box hold a filled cell.
    #[verifier::spinoff_prover]
    pub fn trim_piece(&mut self) -> (r: (Vec<PieceOffset>, i32, i32))
        requires
            old(self).wf(),
        ensures
            final(self).wf(),
            final(self).player == old(self).player,
            final(self).board_width == old(self).board_width,
            final(self).board_height == old(self).board_height,
            final(self).board == old(self).board,
            final(self).my_symbols == old(self).my_symbols,
            final(self).opponent_symbols == old(self).opponent_symbols,
            final(self).heat_weight == old(self).heat_weight,
            final(self).expansion_weight == old(self).expansion_weight,
            final(self).blocking_weight == old(self).blocking_weight,
            final(self).compactness_weight == old(self).compactness_weight,
            !has_filled(old(self).piece@) ==> (r.0@.len() == 0 && r.1 == 0 && r.2 == 0
                && final(self).piece == old(self).piece
                && final(self).piece_width == old(self).piece_width
                && final(self).piece_height == old(self).piece_height),
            has_filled(old(self).piece@) ==> {
                let ox = r.1 as int;
                let oy = r.2 as int;
                let w = final(self).piece_width as int;
                let h = final(self).piece_height as int;
                &&& 0 <= ox && 0 <= oy
                &&& 1 <= w && ox + w <= old(self).piece_width
                &&& 1 <= h && oy + h <= old(self).piece_height
                &&& forall|rr: int, cc: int|
                    #[trigger] filled_at(old(self).piece@, rr, cc) ==> oy <= rr < oy + h && ox <= cc
                        < ox + w
                &&& exists|rr: int| #[trigger] filled_at(old(self).piece@, rr, ox)
                &&& exists|rr: int| #[trigger] filled_at(old(self).piece@, rr, ox + w - 1)
                &&& exists|cc: int| #[trigger] filled_at(old(self).piece@, oy, cc)
                &&& exists|cc: int| #[trigger] filled_at(old(self).piece@, oy + h - 1, cc)
                &&& forall|rr: int, cc: int|
                    0 <= rr < h && 0 <= cc < w ==> final(self).piece@[rr]@[cc]
                        == old(self).piece@[oy + rr]@[ox + cc]
                &&& r.0@ == grid_offsets(final(self).piece@)
                &&& r.0@.len() > 0
                &&& forall|k: int|
                    0 <= k < r.0@.len() ==> 0 <= (#[trigger] r.0@[k]).dx < w && 0 <= r.0@[k].dy < h
                &&& forall|o: PieceOffset|
                    r.0@.contains(o) <==> filled_at(final(self).piece@, o.dy as int, o.dx as int)
                &&& exists|k: int| 0 <= k < r.0@.len() && (#[trigger] r.0@[k]).dx == 0
                &&& exists|k: int| 0 <= k < r.0@.len() && (#[trigger] r.0@[k]).dx == w - 1
                &&& exists|k: int| 0 <= k < r.0@.len() && (#[trigger] r.0@[k]).dy == 0
                &&& exists|k: int| 0 <= k < r.0@.len() && (#[trigger] r.0@[k]).dy == h - 1
                &&& trimmed_shape(r.0@)
            },
    {
        let ph = self.piece_height;
        let pw = self.piece_width;
        let mut found = false;
        let mut min_row: usize = 0;
        let mut max_row: usize = 0;
        let mut min_col: usize = 0;
        let mut max_col: usize = 0;

        let mut rr: usize = 0;
        while rr < ph
            invariant
                *self == *old(self),
                old(self).wf(),
                ph == self.piece_height,
                pw == self.piece_width,
                rr <= ph,
                !found ==> forall|a: int, b: int| a < rr ==> !filled_at(self.piece@, a, b),
                found ==> {
                    &&& min_row <= max_row < rr
                    &&& min_col <= max_col < pw
                    &&& forall|a: int, b: int|
                        filled_at(self.piece@, a, b) && a < rr ==> min_row <= a <= max_row
                            && min_col <= b <= max_col
                    &&& exists|b: int| filled_at(self.piece@, min_row as int, b)
                    &&& exists|b: int| filled_at(self.piece@, max_row as int, b)
                    &&& exists|a: int| filled_at(self.piece@, a, min_col as int)
                    &&& exists|a: int| filled_at(self.piece@, a, max_col as int)
                },
            decreases ph - rr,
        {
            let mut cc: usize = 0;
            while cc < pw
                invariant
                    *self == *old(self),
                    old(self).wf(),
                    ph == self.piece_height,
                    pw == self.piece_width,
                    rr < ph,
                    cc <= pw,
                    !found ==> forall|a: int, b: int|
                        (a < rr || (a == rr && b < cc)) ==> !filled_at(self.piece@, a, b),
                    found ==> {
                        &&& min_row <= max_row <= rr
                        &&& min_col <= max_col < pw
                        &&& forall|a: int, b: int|
                            filled_at(self.piece@, a, b) && (a < rr || (a == rr && b < cc))
                                ==> min_row <= a <= max_row && min_col <= b <= max_col
                        &&& exists|b: int| filled_at(self.piece@, min_row as int, b)
                        &&& exists|b: int| filled_at(self.piece@, max_row as int, b)
                        &&& exists|a: int| filled_at(self.piece@, a, min_col as int)
                        &&& exists|a: int| filled_at(self.piece@, a, max_col as int)
                    },
                decreases pw - cc,
            {
                if self.piece[rr][cc] == PieceCell::Filled {
                    assert(filled_at(self.piece@, rr as int, cc as int));
                    if !found {
                        min_row = rr;
                        max_row = rr;
                        min_col = cc;
                        max_col = cc;
                        found = true;
                    } else {
                        if rr < min_row {
                            min_row = rr;
                        }
                        if rr > max_row {
                            max_row = rr;
                        }
                        if cc < min_col {
                            min_col = cc;
                        }
                        if cc > max_col {
                            max_col = cc;
                        }
                    }
                }
                cc = cc + 1;
            }
            rr = rr + 1;
        }

        if !found {
            proof {
                assert forall|a: int, b: int| !filled_at(self.piece@, a, b) by {
                    if 0 <= a < ph {
                        assert(a < rr);
                    }
                }
            }
            return (Vec::new(), 0, 0);
        }

        let new_h = max_row - min_row + 1;
        let new_w = max_col - min_col + 1;
        let mut new_piece: Vec<Vec<PieceCell>> = Vec::new();
        let mut offsets: Vec<PieceOffset> = Vec::new();
        let mut r2: usize = 0;
        while r2 < new_h
            invariant
                *self == *old(self),
                old(self).wf(),
                ph == self.piece_height,
                pw == self.piece_width,
                min_row <= max_row < ph,
                min_col <= max_col < pw,
                new_h == max_row - min_row + 1,
                new_w == max_col - min_col + 1,
                r2 <= new_h,
                new_piece@.len() == r2,
                forall|i: int| 0 <= i < r2 ==> (#[trigger] new_piece@[i])@.len() == new_w,
                forall|i: int, j: int|
                    0 <= i < r2 && 0 <= j < new_w ==> new_piece@[i]@[j] == self.piece@[min_row
                        + i]@[min_col + j],
                offsets@ == grid_offsets_upto(new_piece@, r2 as int),
            decreases new_h - r2,
        {
            let mut rowv: Vec<PieceCell> = Vec::new();
            let mut c2: usize = 0;
            while c2 < new_w
                invariant
                    *self == *old(self),
                    old(self).wf(),
                    ph == self.piece_height,
                    pw == self.piece_width,
                    min_row <= max_row < ph,
                    min_col <= max_col < pw,
                    new_h == max_row - min_row + 1,
                    new_w == max_col - min_col + 1,
                    r2 < new_h,
                    c2 <= new_w,
                    new_piece@.len() == r2,
                    forall|i: int| 0 <= i < r2 ==> (#[trigger] new_piece@[i])@.len() == new_w,
                    forall|i: int, j: int|
                        0 <= i < r2 && 0 <= j < new_w ==> new_piece@[i]@[j] == self.piece@[min_row
                            + i]@[min_col + j],
                    rowv@.len() == c2,
                    forall|j: int|
                        0 <= j < c2 ==> rowv@[j] == self.piece@[min_row + r2]@[min_col + j],
                    offsets@ == grid_offsets_upto(new_piece@, r2 as int) + row_offsets(
                        rowv@,
                        r2 as int,
                    ),
                decreases new_w - c2,
            {
                let cell = self.piece[min_row + r2][min_col + c2];
                proof {
                    lemma_row_offsets_push(rowv@, r2 as int, cell);
                }
                rowv.push(cell);
                if cell == PieceCell::Filled {
                    offsets.push(PieceOffset { dx: c2 as i32, dy: r2 as i32 });
                }
                c2 = c2 + 1;
            }
            proof {
                lemma_grid_offsets_upto_prefix(new_piece@.push(rowv), new_piece@, r2 as int);
            }
            new_piece.push(rowv);
            r2 = r2 + 1;
        }

        self.piece = new_piece;
        self.piece_width = new_w;
        self.piece_height = new_h;

        proof {
            let pview = old(self).piece@;
            let np = self.piece@;
            assert(offsets@ == grid_offsets(np));
            assert forall|o: PieceOffset| offsets@.contains(o) <==> filled_at(
                np,
                o.dy as int,
                o.dx as int,
            ) by {
                lemma_grid_offsets_membership(np, o);
            }
            assert forall|k: int|
                0 <= k < offsets@.len() implies 0 <= (#[trigger] offsets@[k]).dx < new_w && 0
                <= offsets@[k].dy < new_h by {
                assert(offsets@.contains(offsets@[k]));
                lemma_grid_offsets_membership(np, offsets@[k]);
            }
            // the four extreme rows and columns of the box hold filled cells
            let a0 = choose|a: int| filled_at(pview, a, min_col as int);
            assert(filled_at(np, a0 - min_row, 0));
            let o_left = PieceOffset { dx: 0, dy: (a0 - min_row) as i32 };
            lemma_grid_offsets_membership(np, o_left);
            assert(offsets@.contains(o_left));
            let k_left = choose|k: int| 0 <= k < offsets@.len() && offsets@[k] == o_left;
            assert(offsets@[k_left].dx == 0);

            let a1 = choose|a: int| filled_at(pview, a, max_col as int);
            assert(min_col as int + new_w - 1 == max_col as int);
            assert(filled_at(pview, a1, min_col as int + new_w - 1));
            assert(exists|rr: int| #[trigger] filled_at(pview, rr, min_col as int + new_w - 1));
            assert(filled_at(np, a1 - min_row, new_w - 1));
            let o_right = PieceOffset { dx: (new_w - 1) as i32, dy: (a1 - min_row) as i32 };
            lemma_grid_offsets_membership(np, o_right);
            assert(offsets@.contains(o_right));
            let k_right = choose|k: int| 0 <= k < offsets@.len() && offsets@[k] == o_right;
            assert(offsets@[k_right].dx == new_w - 1);

            let b0 = choose|b: int| filled_at(pview, min_row as int, b);
            assert(filled_at(np, 0, b0 - min_col));
            let o_top = PieceOffset { dx: (b0 - min_col) as i32, dy: 0 };
            lemma_grid_offsets_membership(np, o_top);
            assert(offsets@.contains(o_top));
            let k_top = choose|k: int| 0 <= k < offsets@.len() && offsets@[k] == o_top;
            assert(offsets@[k_top].dy == 0);

            let b1 = choose|b: int| filled_at(pview, max_row as int, b);
            assert(min_row as int + new_h - 1 == max_row as int);
            assert(filled_at(pview, min_row as int + new_h - 1, b1));
            assert(exists|cc: int| #[trigger] filled_at(pview, min_row as int + new_h - 1, cc));
            assert(filled_at(np, new_h - 1, b1 - min_col));
            let o_bot = PieceOffset { dx: (b1 - min_col) as i32, dy: (new_h - 1) as i32 };
            lemma_grid_offsets_membership(np, o_bot);
            assert(offsets@.contains(o_bot));
            let k_bot = choose|k: int| 0 <= k < offsets@.len() && offsets@[k] == o_bot;
            assert(offsets@[k_bot].dy == new_h - 1);
        }

        (offsets, min_col as i32, min_row as i32)
    }
}

} // verus!

verus! {

/// How one character of a board row decodes: '.' is empty, '@' and 'a' are
/// the first player, '$' and 's' the second; anything else is malformed.
pub open spec fn decode_board_char(ch: char) -> Option<Cell> {
    if ch == '.' {
        Some(Cell::Empty)
    } else if ch == '@' || ch == 'a' {
        Some(Cell::Player1)
    } else if ch == '$' || ch == 's' {
        Some(Cell::Player2)
    } else {
        None
    }
}

/// How one character of a piece row decodes: '.' is empty, '#', 'O' and 'o'
/// are filled; anything else is malformed.
pub open spec fn decode_piece_char(ch: char) -> Option<PieceCell> {
    if ch == '.' {
        Some(PieceCell::Empty)
    } else if ch == '#' || ch == 'O' || ch == 'o' {
        Some(PieceCell::Filled)
    } else {
        None
    }
}

/// The cell characters of a board row line: the line with its four-character
/// row-number prefix removed, or the whole line when it is shorter than that.
pub open spec fn board_row_content(line: Seq<char>) -> Seq<char> {
    if line.len() >= 4 {
        line.skip(4)
    } else {
        line
    }
}

impl GameState {
    /// Decode one board row line into row `row_idx` of the board.
    ///
    /// Fails when the row (after its prefix) is shorter than the board width,
    /// leaving the board unchanged, or on the first unknown cell character,
    /// leaving the columns from that one on unchanged.
    pub fn parse_board_row(&mut self, line: &str, row_idx: usize) -> (res: Result<(), String>)
        requires
            old(self).wf(),
            row_idx < old(self).board_height,
        ensures
            final(self).wf(),
            final(self).player == old(self).player,
            final(self).board_width == old(self).board_width,
            final(self).board_height == old(self).board_height,
            final(self).piece_width == old(self).piece_width,
            final(self).piece_height == old(self).piece_height,
            final(self).piece == old(self).piece,
            final(self).my_symbols == old(self).my_symbols,
            final(self).opponent_symbols == old(self).opponent_symbols,
            final(self).heat_weight == old(self).heat_weight,
            final(self).expansion_weight == old(self).expansion_weight,
            final(self).blocking_weight == old(self).blocking_weight,
            final(self).compactness_weight == old(self).compactness_weight,
            final(self).board@.len() == old(self).board@.len(),
            forall|rr: int|
                0 <= rr < old(self).board@.len() && rr != row_idx
                    ==> final(self).board@[rr] == old(self).board@[rr],
            res is Ok <==> {
                let content = board_row_content(line@);
                &&& content.len() >= old(self).board_width
                &&& forall|j: int|
                    0 <= j < old(self).board_width ==> decode_board_char(#[trigger] content[j])
                        is Some
            },
            res is Ok ==> forall|j: int|
                0 <= j < old(self).board_width ==> final(self).board@[row_idx as int]@[j]
                    == decode_board_char(#[trigger] board_row_content(line@)[j]).unwrap(),
            res is Err ==> {
                let content = board_row_content(line@);
                if content.len() < old(self).board_width {
                    final(self).board == old(self).board
                } else {
                    exists|j: int|
                        {
                            &&& 0 <= j < old(self).board_width
                            &&& decode_board_char(#[trigger] content[j]) is None
                            &&& forall|i: int|
                                0 <= i < j ==> decode_board_char(#[trigger] content[i]) is Some
                            &&& forall|i: int|
                                0 <= i < j ==> final(self).board@[row_idx as int]@[i]
                                    == decode_board_char(#[trigger] content[i]).unwrap()
                            &&& forall|i: int|
                                j <= i < old(self).board_width
                                    ==> final(self).board@[row_idx as int]@[i]
                                    == old(self).board@[row_idx as int]@[i]
                        }
                }
            },
    {
        let len = line.unicode_len();
        let start: usize = if len >= 4 {
            4
        } else {
            0
        };
        let ghost content = board_row_content(line@);
        proof {
            assert(content =~= line@.skip(start as int));
        }
        if len - start < self.board_width {
            return Err("board row too short".to_owned());
        }
        let width = self.board_width;
        let mut col: usize = 0;
        while col < width
            invariant
                old(self).wf(),
                self.wf(),
                width == self.board_width,
                row_idx < self.board_height,
                col <= width,
                content == board_row_content(line@),
                content =~= line@.skip(start as int),
                start <= 4,
                start + width <= line@.len(),
                self.player == old(self).player,
                self.board_width == old(self).board_width,
                self.board_height == old(self).board_height,
                self.piece_width == old(self).piece_width,
                self.piece_height == old(self).piece_height,
                self.piece == old(self).piece,
                self.my_symbols == old(self).my_symbols,
                self.opponent_symbols == old(self).opponent_symbols,
                self.heat_weight == old(self).heat_weight,
                self.expansion_weight == old(self).expansion_weight,
                self.blocking_weight == old(self).blocking_weight,
                self.compactness_weight == old(self).compactness_weight,
                self.board@.len() == old(self).board@.len(),
                forall|rr: int|
                    0 <= rr < old(self).board@.len() && rr != row_idx ==> self.board@[rr] == old(self).board@[rr],
                forall|i: int|
                    0 <= i < col ==> decode_board_char(#[trigger] content[i]) is Some,
                forall|i: int|
                    0 <= i < col ==> self.board@[row_idx as int]@[i] == decode_board_char(
                        #[trigger] content[i],
                    ).unwrap(),
                forall|i: int|
                    col <= i < width ==> self.board@[row_idx as int]@[i] == old(self).board@[row_idx as int]@[i],
            decreases width - col,
        {
            let ch = line.get_char(start + col);
            proof {
                assert(content[col as int] == line@[start + col]);
            }
            let cell = if ch == '.' {
                Cell::Empty
            } else if ch == '@' || ch == 'a' {
                Cell::Player1
            } else if ch == '$' || ch == 's' {
                Cell::Player2
            } else {
                return Err("unknown board cell".to_owned());
            };
            self.board[row_idx][col] = cell;
            col = col + 1;
        }
        Ok(())
    }

    /// Decode one piece row line into row `row_idx` of the piece grid.
    ///
    /// Fails when the line is shorter than the piece width, leaving the piece
    /// unchanged, or on the first unknown piece character, leaving the
    /// columns from that one on unchanged.
    pub fn parse_piece_row(&mut self, line: &str, row_idx: usize) -> (res: Result<(), String>)
        requires
            old(self).wf(),
            row_idx < old(self).piece_height,
        ensures
            final(self).wf(),
            final(self).player == old(self).player,
            final(self).board_width == old(self).board_width,
            final(self).board_height == old(self).board_height,
            final(self).board == old(self).board,
            final(self).piece_width == old(self).piece_width,
            final(self).piece_height == old(self).piece_height,
            final(self).my_symbols == old(self).my_symbols,
            final(self).opponent_symbols == old(self).opponent_symbols,
            final(self).heat_weight == old(self).heat_weight,
            final(self).expansion_weight == old(self).expansion_weight,
            final(self).blocking_weight == old(self).blocking_weight,
            final(self).compactness_weight == old(self).compactness_weight,
            final(self).piece@.len() == old(self).piece@.len(),
            forall|rr: int|
                0 <= rr < old(self).piece@.len() && rr != row_idx
                    ==> final(self).piece@[rr] == old(self).piece@[rr],
            res is Ok <==> {
                &&& line@.len() >= old(self).piece_width
                &&& forall|j: int|
                    0 <= j < old(self).piece_width ==> decode_piece_char(#[trigger] line@[j])
                        is Some
            },
            res is Ok ==> forall|j: int|
                0 <= j < old(self).piece_width ==> final(self).piece@[row_idx as int]@[j]
                    == decode_piece_char(#[trigger] line@[j]).unwrap(),
            res is Err ==> {
                if line@.len() < old(self).piece_width {
                    final(self).piece == old(self).piece
                } else {
                    exists|j: int|
                        {
                            &&& 0 <= j < old(self).piece_width
                            &&& decode_piece_char(#[trigger] line@[j]) is None
                            &&& forall|i: int|
                                0 <= i < j ==> decode_piece_char(#[trigger] line@[i]) is Some
                            &&& forall|i: int|
                                0 <= i < j ==> final(self).piece@[row_idx as int]@[i]
                                    == decode_piece_char(#[trigger] line@[i]).unwrap()
                            &&& forall|i: int|
                                j <= i < old(self).piece_width
                                    ==> final(self).piece@[row_idx as int]@[i]
                                    == old(self).piece@[row_idx as int]@[i]
                        }
                }
            },
    {
        let len = line.unicode_len();
        if len < self.piece_width {
            return Err("piece row too short".to_owned());
        }
        let width = self.piece_width;
        let mut col: usize = 0;
        while col < width
            invariant
                old(self).wf(),
                self.wf(),
                width == self.piece_width,
                row_idx < self.piece_height,
                col <= width,
                width <= line@.len(),
                self.player == old(self).player,
                self.board_width == old(self).board_width,
                self.board_height == old(self).board_height,
                self.board == old(self).board,
                self.piece_width == old(self).piece_width,
                self.piece_height == old(self).piece_height,
                self.my_symbols == old(self).my_symbols,
                self.opponent_symbols == old(self).opponent_symbols,
                self.heat_weight == old(self).heat_weight,
                self.expansion_weight == old(self).expansion_weight,
                self.blocking_weight == old(self).blocking_weight,
                self.compactness_weight == old(self).compactness_weight,
                self.piece@.len() == old(self).piece@.len(),
                forall|rr: int|
                    0 <= rr < old(self).piece@.len() && rr != row_idx ==> self.piece@[rr] == old(self).piece@[rr],
                forall|i: int| 0 <= i < col ==> decode_piece_char(#[trigger] line@[i]) is Some,
                forall|i: int|
                    0 <= i < col ==> self.piece@[row_idx as int]@[i] == decode_piece_char(
                        #[trigger] line@[i],
                    ).unwrap(),
                forall|i: int|
                    col <= i < width ==> self.piece@[row_idx as int]@[i] == old(self).piece@[row_idx as int]@[i],
            decreases width - col,
        {
            let ch = line.get_char(col);
            let cell = if ch == '.' {
                PieceCell::Empty
            } else if ch == '#' || ch == 'O' || ch == 'o' {
                PieceCell::Filled
            } else {
                return Err("unknown piece cell".to_owned());
            };
            self.piece[row_idx][col] = cell;
            col = col + 1;
        }
        Ok(())
    }
}

} // verus!
