//! Counting tiles that satisfy a predicate, over a row and over a whole
//! grid, together with the lemmas the engine needs: bounds, the effect of
//! updating one tile, prefix extension for loops, and splitting the claimed
//! count by player.

use vstd::prelude::*;
use crate::board::{Owner, Tile};

verus! {

/// Number of tiles of `row` satisfying `p`.
pub open spec fn count_row(row: Seq<Tile>, p: spec_fn(Tile) -> bool) -> int
    decreases row.len(),
{
    if row.len() == 0 {
        0
    } else {
        count_row(row.drop_last(), p) + if p(row.last()) {
            1int
        } else {
            0int
        }
    }
}

/// Number of tiles of the whole grid `g` satisfying `p`.
pub open spec fn count_grid(g: Seq<Seq<Tile>>, p: spec_fn(Tile) -> bool) -> int
    decreases g.len(),
{
    if g.len() == 0 {
        0
    } else {
        count_grid(g.drop_last(), p) + count_row(g.last(), p)
    }
}

/// Tiles that have been claimed by some player.
pub open spec fn claimed_p() -> spec_fn(Tile) -> bool {
    |t: Tile| t.owner != Owner::Empty
}

/// Tiles whose four edges are all drawn.
pub open spec fn full_p() -> spec_fn(Tile) -> bool {
    |t: Tile| t.full()
}

/// Tiles owned by exactly `o`.
pub open spec fn owner_p(o: Owner) -> spec_fn(Tile) -> bool {
    |t: Tile| t.owner == o
}

/// A row's count lies between 0 and the row's length.
pub proof fn lemma_count_row_bound(row: Seq<Tile>, p: spec_fn(Tile) -> bool)
    ensures
        0 <= count_row(row, p) <= row.len(),
    decreases row.len(),
{
    if row.len() > 0 {
        lemma_count_row_bound(row.drop_last(), p);
    }
}

/// A grid of rows of width `w` counts at most `g.len() * w` tiles.
pub proof fn lemma_count_grid_bound(g: Seq<Seq<Tile>>, p: spec_fn(Tile) -> bool, w: int)
    requires
        forall|i: int| 0 <= i < g.len() ==> #[trigger] g[i].len() == w,
    ensures
        0 <= count_grid(g, p) <= g.len() * w,
    decreases g.len(),
{
    if g.len() > 0 {
        lemma_count_grid_bound(g.drop_last(), p, w);
        lemma_count_row_bound(g.last(), p);
        assert((g.len() - 1) * w + w == g.len() * w) by (nonlinear_arith);
    }
}

/// If some tile of the row misses `p`, the count stays below the length.
pub proof fn lemma_count_row_missing(row: Seq<Tile>, p: spec_fn(Tile) -> bool, i: int)
    requires
        0 <= i < row.len(),
        !p(row[i]),
    ensures
        count_row(row, p) <= row.len() - 1,
    decreases row.len(),
{
    lemma_count_row_bound(row.drop_last(), p);
    if i < row.len() - 1 {
        lemma_count_row_missing(row.drop_last(), p, i);
    }
}

/// If some in-range tile of the grid misses `p`, the count stays below the
/// total number of tiles.
pub proof fn lemma_count_grid_missing(
    g: Seq<Seq<Tile>>,
    p: spec_fn(Tile) -> bool,
    w: int,
    x: int,
    y: int,
)
    requires
        forall|i: int| 0 <= i < g.len() ==> #[trigger] g[i].len() == w,
        0 <= y < g.len(),
        0 <= x < w,
        !p(g[y][x]),
    ensures
        count_grid(g, p) <= g.len() * w - 1,
    decreases g.len(),
{
    if y == g.len() - 1 {
        lemma_count_grid_bound(g.drop_last(), p, w);
        lemma_count_row_missing(g.last(), p, x);
    } else {
        lemma_count_grid_missing(g.drop_last(), p, w, x, y);
        lemma_count_row_bound(g.last(), p);
    }
    assert((g.len() - 1) * w + w == g.len() * w) by (nonlinear_arith);
}

/// Updating one tile of a row shifts the count by the difference of the two
/// indicator values.
pub proof fn lemma_count_row_update(row: Seq<Tile>, p: spec_fn(Tile) -> bool, i: int, t: Tile)
    requires
        0 <= i < row.len(),
    ensures
        count_row(row.update(i, t), p) == count_row(row, p) + (if p(t) {
            1int
        } else {
            0int
        }) - (if p(row[i]) {
            1int
        } else {
            0int
        }),
    decreases row.len(),
{
    let row2 = row.update(i, t);
    if i == row.len() - 1 {
        assert(row2.drop_last() =~= row.drop_last());
        assert(row2.last() == t);
    } else {
        assert(row2.drop_last() =~= row.drop_last().update(i, t));
        assert(row2.last() == row.last());
        lemma_count_row_update(row.drop_last(), p, i, t);
    }
}

/// Updating one row of a grid shifts the count by the difference of the two
/// row counts.
pub proof fn lemma_count_grid_update(
    g: Seq<Seq<Tile>>,
    p: spec_fn(Tile) -> bool,
    y: int,
    row: Seq<Tile>,
)
    requires
        0 <= y < g.len(),
    ensures
        count_grid(g.update(y, row), p) == count_grid(g, p) + count_row(row, p) - count_row(
            g[y],
            p,
        ),
    decreases g.len(),
{
    let g2 = g.update(y, row);
    if y == g.len() - 1 {
        assert(g2.drop_last() =~= g.drop_last());
        assert(g2.last() == row);
    } else {
        assert(g2.drop_last() =~= g.drop_last().update(y, row));
        assert(g2.last() == g.last());
        lemma_count_grid_update(g.drop_last(), p, y, row);
    }
}

/// Extending a row prefix by one tile adds that tile's indicator value.
pub proof fn lemma_count_row_extend(row: Seq<Tile>, p: spec_fn(Tile) -> bool, j: int)
    requires
        0 <= j < row.len(),
    ensures
        count_row(row.subrange(0, j + 1), p) == count_row(row.subrange(0, j), p) + (if p(
            row[j],
        ) {
            1int
        } else {
            0int
        }),
{
    let pre = row.subrange(0, j + 1);
    assert(pre.drop_last() =~= row.subrange(0, j));
    assert(pre.last() == row[j]);
}

/// Extending a grid prefix by one row adds that row's count.
pub proof fn lemma_count_grid_extend(g: Seq<Seq<Tile>>, p: spec_fn(Tile) -> bool, i: int)
    requires
        0 <= i < g.len(),
    ensures
        count_grid(g.subrange(0, i + 1), p) == count_grid(g.subrange(0, i), p) + count_row(
            g[i],
            p,
        ),
{
    let pre = g.subrange(0, i + 1);
    assert(pre.drop_last() =~= g.subrange(0, i));
    assert(pre.last() == g[i]);
}

/// A row all of whose tiles satisfy `p` counts its full length.
pub proof fn lemma_count_row_all(row: Seq<Tile>, p: spec_fn(Tile) -> bool)
    requires
        forall|i: int| 0 <= i < row.len() ==> p(#[trigger] row[i]),
    ensures
        count_row(row, p) == row.len(),
    decreases row.len(),
{
    if row.len() > 0 {
        lemma_count_row_all(row.drop_last(), p);
    }
}

/// A grid all of whose tiles satisfy `p` counts every one of its tiles.
pub proof fn lemma_count_grid_all(g: Seq<Seq<Tile>>, p: spec_fn(Tile) -> bool, w: int)
    requires
        forall|i: int| 0 <= i < g.len() ==> #[trigger] g[i].len() == w,
        forall|y: int, x: int| 0 <= y < g.len() && 0 <= x < w ==> p(#[trigger] g[y][x]),
    ensures
        count_grid(g, p) == g.len() * w,
    decreases g.len(),
{
    if g.len() > 0 {
        lemma_count_grid_all(g.drop_last(), p, w);
        assert(forall|i: int|
            0 <= i < g.last().len() ==> #[trigger] g.last()[i] == g[g.len() - 1][i]);
        lemma_count_row_all(g.last(), p);
        assert((g.len() - 1) * w + w == g.len() * w) by (nonlinear_arith);
    } else {
        assert(g.len() * w == 0) by (nonlinear_arith)
            requires
                g.len() == 0,
        ;
    }
}

/// Two predicates that agree on every tile of a row count the same.
pub proof fn lemma_count_row_pointwise(
    row: Seq<Tile>,
    p: spec_fn(Tile) -> bool,
    q: spec_fn(Tile) -> bool,
)
    requires
        forall|i: int| 0 <= i < row.len() ==> p(#[trigger] row[i]) == q(row[i]),
    ensures
        count_row(row, p) == count_row(row, q),
    decreases row.len(),
{
    if row.len() > 0 {
        lemma_count_row_pointwise(row.drop_last(), p, q);
    }
}

/// Two predicates that agree on every tile of a grid count the same.
pub proof fn lemma_count_grid_pointwise(
    g: Seq<Seq<Tile>>,
    p: spec_fn(Tile) -> bool,
    q: spec_fn(Tile) -> bool,
)
    requires
        forall|y: int, x: int|
            0 <= y < g.len() && 0 <= x < g[y].len() ==> p(#[trigger] g[y][x]) == q(g[y][x]),
    ensures
        count_grid(g, p) == count_grid(g, q),
    decreases g.len(),
{
    if g.len() > 0 {
        assert(forall|i: int| 0 <= i < g.last().len() ==> g.last()[i] == g[g.len() - 1][i]);
        lemma_count_row_pointwise(g.last(), p, q);
        lemma_count_grid_pointwise(g.drop_last(), p, q);
    }
}

/// In a row, the claimed tiles are exactly those owned by player 1 plus
/// those owned by player 2.
pub proof fn lemma_count_row_split(row: Seq<Tile>)
    ensures
        count_row(row, claimed_p()) == count_row(row, owner_p(Owner::Player1)) + count_row(
            row,
            owner_p(Owner::Player2),
        ),
    decreases row.len(),
{
    if row.len() > 0 {
        lemma_count_row_split(row.drop_last());
    }
}

/// In a grid, the claimed tiles are exactly those owned by player 1 plus
/// those owned by player 2.
pub proof fn lemma_count_grid_split(g: Seq<Seq<Tile>>)
    ensures
        count_grid(g, claimed_p()) == count_grid(g, owner_p(Owner::Player1)) + count_grid(
            g,
            owner_p(Owner::Player2),
        ),
    decreases g.len(),
{
    if g.len() > 0 {
        lemma_count_row_split(g.last());
        lemma_count_grid_split(g.drop_last());
    }
}

} // verus!
