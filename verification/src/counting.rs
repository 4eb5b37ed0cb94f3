use vstd::prelude::*;

verus! {

/// Number of entries of `row` that satisfy `p`.
pub open spec fn row_count<T>(row: Seq<T>, p: spec_fn(T) -> bool) -> int
    decreases row.len(),
{
    if row.len() == 0 {
        0
    } else {
        row_count(row.drop_last(), p) + if p(row.last()) {
            1int
        } else {
            0int
        }
    }
}

/// Number of entries of the grid `g` (a sequence of rows) that satisfy `p`.
pub open spec fn grid_count<T>(g: Seq<Vec<T>>, p: spec_fn(T) -> bool) -> int
    decreases g.len(),
{
    if g.len() == 0 {
        0
    } else {
        grid_count(g.drop_last(), p) + row_count(g.last()@, p)
    }
}

pub proof fn lemma_row_count_bounds<T>(row: Seq<T>, p: spec_fn(T) -> bool)
    ensures
        0 <= row_count(row, p) <= row.len(),
    decreases row.len(),
{
    if row.len() > 0 {
        lemma_row_count_bounds(row.drop_last(), p);
    }
}

/// Counting one more entry of a row.
pub proof fn lemma_row_count_take_step<T>(row: Seq<T>, p: spec_fn(T) -> bool, i: int)
    requires
        0 <= i < row.len(),
    ensures
        row_count(row.take(i + 1), p) == row_count(row.take(i), p) + if p(row[i]) {
            1int
        } else {
            0int
        },
{
    assert(row.take(i + 1).drop_last() =~= row.take(i));
    assert(row.take(i + 1).last() == row[i]);
}

/// Counting one more row of a grid.
pub proof fn lemma_grid_count_take_step<T>(g: Seq<Vec<T>>, p: spec_fn(T) -> bool, i: int)
    requires
        0 <= i < g.len(),
    ensures
        grid_count(g.take(i + 1), p) == grid_count(g.take(i), p) + row_count(g[i]@, p),
{
    assert(g.take(i + 1).drop_last() =~= g.take(i));
    assert(g.take(i + 1).last() == g[i]);
}

pub proof fn lemma_row_count_update<T>(row: Seq<T>, p: spec_fn(T) -> bool, i: int, v: T)
    requires
        0 <= i < row.len(),
    ensures
        row_count(row.update(i, v), p) == row_count(row, p) - (if p(row[i]) {
            1int
        } else {
            0int
        }) + (if p(v) {
            1int
        } else {
            0int
        }),
    decreases row.len(),
{
    let u = row.update(i, v);
    assert(u.len() == row.len());
    if i == row.len() - 1 {
        assert(u.drop_last() =~= row.drop_last());
        assert(u.last() == v);
    } else {
        assert(u.drop_last() =~= row.drop_last().update(i, v));
        assert(u.last() == row.last());
        lemma_row_count_update(row.drop_last(), p, i, v);
    }
}

/// Updating one cell of a grid changes the count by the difference at that
/// cell.
pub proof fn lemma_grid_count_update<T>(g: Seq<Vec<T>>, p: spec_fn(T) -> bool, y: int, row: Vec<T>)
    requires
        0 <= y < g.len(),
    ensures
        grid_count(g.update(y, row), p) == grid_count(g, p) - row_count(g[y]@, p) + row_count(
            row@,
            p,
        ),
    decreases g.len(),
{
    let u = g.update(y, row);
    assert(u.len() == g.len());
    if y == g.len() - 1 {
        assert(u.drop_last() =~= g.drop_last());
        assert(u.last() == row);
    } else {
        assert(u.drop_last() =~= g.drop_last().update(y, row));
        assert(u.last() == g.last());
        lemma_grid_count_update(g.drop_last(), p, y, row);
    }
}

/// A grid with rows of length at most `w` holds at most `g.len() * w`
/// matching entries.
pub proof fn lemma_grid_count_bounds<T>(g: Seq<Vec<T>>, p: spec_fn(T) -> bool, w: int)
    requires
        forall|r: int| 0 <= r < g.len() ==> (#[trigger] g[r])@.len() <= w,
        w >= 0,
    ensures
        0 <= grid_count(g, p) <= g.len() * w,
    decreases g.len(),
{
    if g.len() == 0 {
    } else {
        lemma_grid_count_bounds(g.drop_last(), p, w);
        lemma_row_count_bounds(g.last()@, p);
        assert((g.len() - 1) * w + w == g.len() * w) by (nonlinear_arith);
    }
}

pub proof fn lemma_row_count_skips_one<T>(row: Seq<T>, p: spec_fn(T) -> bool, i: int)
    requires
        0 <= i < row.len(),
        !p(row[i]),
    ensures
        row_count(row, p) <= row.len() - 1,
    decreases row.len(),
{
    lemma_row_count_bounds(row.drop_last(), p);
    if i == row.len() - 1 {
    } else {
        lemma_row_count_skips_one(row.drop_last(), p, i);
    }
}

/// A grid with one entry that does not match `p` holds strictly fewer than
/// `g.len() * w` matching entries.
pub proof fn lemma_grid_count_skips_one<T>(
    g: Seq<Vec<T>>,
    p: spec_fn(T) -> bool,
    w: int,
    x: int,
    y: int,
)
    requires
        forall|r: int| 0 <= r < g.len() ==> (#[trigger] g[r])@.len() == w,
        0 <= y < g.len(),
        0 <= x < w,
        !p(g[y]@[x]),
    ensures
        grid_count(g, p) <= g.len() * w - 1,
    decreases g.len(),
{
    if y == g.len() - 1 {
        lemma_grid_count_bounds(g.drop_last(), p, w);
        lemma_row_count_skips_one(g.last()@, p, x);
        assert((g.len() - 1) * w + w == g.len() * w) by (nonlinear_arith);
    } else {
        lemma_grid_count_skips_one(g.drop_last(), p, w, x, y);
        lemma_row_count_bounds(g.last()@, p);
        assert((g.len() - 1) * w + w == g.len() * w) by (nonlinear_arith);
    }
}

} // verus!
