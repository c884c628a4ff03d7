//! The engine's laws, stated over the move-application model and proved
//! once and for all: mirrored edges agree, the fill counter matches the
//! board, ownership is stable, a cell is claimed exactly by the player who
//! completes it, and boundary edges never propagate.

use vstd::prelude::*;
use crate::board::{apply_move_spec, claims, consistent, draw_step, grid_dims, in_bounds,
    lemma_apply_preserves_consistent, lemma_draw_step_frame, mirrored_ok, neighbor_exists,
    neighbor_x, neighbor_y, owner_matches_full, owners_ok, tile_at, Board, Direction, Move, Owner,
    Tile};
use crate::counting::{claimed_p, count_grid, full_p, lemma_count_grid_all,
    lemma_count_grid_pointwise, lemma_count_grid_split, owner_p};

verus! {

/// In a consistent grid, the two mirrored representations of an interior
/// edge are equal: the flag of cell `(x, y)` facing `d` and the flag its
/// neighbor across that edge holds facing back always agree.
pub proof fn lemma_mirrored_edges_agree(
    g: Seq<Seq<Tile>>,
    sx: int,
    sy: int,
    x: int,
    y: int,
    d: Direction,
)
    requires
        grid_dims(g, sx, sy),
        consistent(g, sx, sy),
        in_bounds(sx, sy, x, y),
        neighbor_exists(sx, sy, x, y, d),
    ensures
        tile_at(g, x, y).edge(d) == tile_at(g, neighbor_x(x, d), neighbor_y(y, d)).edge(
            d.opposite_spec(),
        ),
{
    let nx = neighbor_x(x, d);
    let ny = neighbor_y(y, d);
    assert(mirrored_ok(g, sx, sy, x, y, d));
    assert(in_bounds(sx, sy, nx, ny));
    assert(neighbor_exists(sx, sy, nx, ny, d.opposite_spec()));
    assert(mirrored_ok(g, sx, sy, nx, ny, d.opposite_spec()));
    assert(neighbor_x(nx, d.opposite_spec()) == x);
    assert(neighbor_y(ny, d.opposite_spec()) == y);
}

/// Every move of `ms` names a cell of an `sx` by `sy` grid.
pub open spec fn moves_in_bounds(sx: int, sy: int, ms: Seq<Move>) -> bool {
    forall|i: int| 0 <= i < ms.len() ==> in_bounds(sx, sy, (#[trigger] ms[i]).x as int, ms[i].y as int)
}

/// The grid after a whole sequence of moves, applied in order.
pub open spec fn apply_moves_spec(g: Seq<Seq<Tile>>, sx: int, sy: int, ms: Seq<Move>) -> Seq<
    Seq<Tile>,
>
    decreases ms.len(),
{
    if ms.len() == 0 {
        g
    } else {
        apply_move_spec(apply_moves_spec(g, sx, sy, ms.drop_last()), sx, sy, ms.last())
    }
}

/// The frame of one move: it rewrites the cell it names (edge drawn, then
/// ownership resolved), likewise the neighbor across that edge if one
/// exists, and leaves every other cell untouched.
pub proof fn lemma_apply_frame(g: Seq<Seq<Tile>>, sx: int, sy: int, m: Move)
    requires
        grid_dims(g, sx, sy),
        in_bounds(sx, sy, m.x as int, m.y as int),
    ensures
        grid_dims(apply_move_spec(g, sx, sy, m), sx, sy),
        tile_at(apply_move_spec(g, sx, sy, m), m.x as int, m.y as int) == tile_at(
            g,
            m.x as int,
            m.y as int,
        ).with_edge(m.direction).resolved(m.owner),
        neighbor_exists(sx, sy, m.x as int, m.y as int, m.direction) ==> tile_at(
            apply_move_spec(g, sx, sy, m),
            neighbor_x(m.x as int, m.direction),
            neighbor_y(m.y as int, m.direction),
        ) == tile_at(
            g,
            neighbor_x(m.x as int, m.direction),
            neighbor_y(m.y as int, m.direction),
        ).with_edge(m.direction.opposite_spec()).resolved(m.owner),
        forall|cx: int, cy: int|
            in_bounds(sx, sy, cx, cy) && !(cx == m.x as int && cy == m.y as int) && !(
            neighbor_exists(sx, sy, m.x as int, m.y as int, m.direction) && cx == neighbor_x(
                m.x as int,
                m.direction,
            ) && cy == neighbor_y(m.y as int, m.direction)) ==> #[trigger] tile_at(
                apply_move_spec(g, sx, sy, m),
                cx,
                cy,
            ) == tile_at(g, cx, cy),
{
    let x = m.x as int;
    let y = m.y as int;
    let d = m.direction;
    let p = m.owner;
    let g1 = draw_step(g, x, y, d, p);
    lemma_draw_step_frame(g, sx, sy, x, y, d, p);
    if neighbor_exists(sx, sy, x, y, d) {
        let nx = neighbor_x(x, d);
        let ny = neighbor_y(y, d);
        assert(in_bounds(sx, sy, nx, ny));
        lemma_draw_step_frame(g1, sx, sy, nx, ny, d.opposite_spec(), p);
        assert(!(nx == x && ny == y));
    }
}

/// A cell's owner, once set, is invariant under any further move: moves may
/// still draw edges of a claimed cell, but never change its owner.
pub proof fn lemma_owner_stable(g: Seq<Seq<Tile>>, sx: int, sy: int, m: Move)
    requires
        grid_dims(g, sx, sy),
        in_bounds(sx, sy, m.x as int, m.y as int),
    ensures
        forall|cx: int, cy: int|
            in_bounds(sx, sy, cx, cy) && (#[trigger] tile_at(g, cx, cy)).owner != Owner::Empty
                ==> tile_at(apply_move_spec(g, sx, sy, m), cx, cy).owner == tile_at(
                g,
                cx,
                cy,
            ).owner,
{
    lemma_apply_frame(g, sx, sy, m);
}

/// Exactly the completing player claims a cell: if the move's edge is the
/// fourth edge of its unclaimed cell, the cell becomes the mover's; if the
/// cell stays short of four edges, it stays unclaimed.  Together with
/// `lemma_owner_stable` this pins the one ownership transition of a cell,
/// whatever the order of the four draws.
pub proof fn lemma_fourth_edge_claims(g: Seq<Seq<Tile>>, sx: int, sy: int, m: Move)
    requires
        grid_dims(g, sx, sy),
        in_bounds(sx, sy, m.x as int, m.y as int),
    ensures
        claims(tile_at(g, m.x as int, m.y as int), m.direction) ==> tile_at(
            apply_move_spec(g, sx, sy, m),
            m.x as int,
            m.y as int,
        ).owner == m.owner,
        (tile_at(g, m.x as int, m.y as int).owner == Owner::Empty && !tile_at(
            g,
            m.x as int,
            m.y as int,
        ).with_edge(m.direction).full()) ==> tile_at(
            apply_move_spec(g, sx, sy, m),
            m.x as int,
            m.y as int,
        ).owner == Owner::Empty,
{
    lemma_apply_frame(g, sx, sy, m);
}

/// A move on a boundary edge has no mirror to write: every cell but the one
/// named is untouched, and in particular no out-of-grid neighbor is ever
/// addressed.
pub proof fn lemma_boundary_no_mirror(g: Seq<Seq<Tile>>, sx: int, sy: int, m: Move)
    requires
        grid_dims(g, sx, sy),
        in_bounds(sx, sy, m.x as int, m.y as int),
        !neighbor_exists(sx, sy, m.x as int, m.y as int, m.direction),
    ensures
        forall|cx: int, cy: int|
            in_bounds(sx, sy, cx, cy) && !(cx == m.x as int && cy == m.y as int)
                ==> #[trigger] tile_at(apply_move_spec(g, sx, sy, m), cx, cy) == tile_at(
                g,
                cx,
                cy,
            ),
{
    lemma_apply_frame(g, sx, sy, m);
}

/// The consistency invariant holds after any sequence of in-bounds moves on
/// a consistent grid, not just at the end of a game.
pub proof fn lemma_moves_preserve_consistent(g: Seq<Seq<Tile>>, sx: int, sy: int, ms: Seq<Move>)
    requires
        grid_dims(g, sx, sy),
        consistent(g, sx, sy),
        moves_in_bounds(sx, sy, ms),
    ensures
        grid_dims(apply_moves_spec(g, sx, sy, ms), sx, sy),
        consistent(apply_moves_spec(g, sx, sy, ms), sx, sy),
    decreases ms.len(),
{
    if ms.len() > 0 {
        assert(moves_in_bounds(sx, sy, ms.drop_last()));
        lemma_moves_preserve_consistent(g, sx, sy, ms.drop_last());
        let gk = apply_moves_spec(g, sx, sy, ms.drop_last());
        assert(in_bounds(sx, sy, ms.last().x as int, ms.last().y as int));
        lemma_apply_preserves_consistent(gk, sx, sy, ms.last());
        lemma_apply_frame(gk, sx, sy, ms.last());
    }
}

/// A finished game in general: once every cell of a well-formed board has
/// its four edges drawn, every cell is claimed by some player, the fill
/// counter reads the whole grid, and the two players' counts make up the
/// total.
pub proof fn lemma_full_board_all_claimed(b: Board)
    requires
        b.wf(),
        forall|x: int, y: int|
            in_bounds(b.size_x as int, b.size_y as int, x, y) ==> (#[trigger] b.tile(
                x,
                y,
            )).full(),
    ensures
        forall|x: int, y: int|
            in_bounds(b.size_x as int, b.size_y as int, x, y) ==> (#[trigger] b.tile(x, y)).owner
                != Owner::Empty,
        b.filled == b.size_x * b.size_y,
        count_grid(b.grid(), owner_p(Owner::Player1)) + count_grid(
            b.grid(),
            owner_p(Owner::Player2),
        ) == b.size_x * b.size_y,
{
    let g = b.grid();
    let sx = b.size_x as int;
    let sy = b.size_y as int;
    assert forall|x: int, y: int|
        in_bounds(sx, sy, x, y) implies (#[trigger] b.tile(x, y)).owner != Owner::Empty by {
        assert(owner_matches_full(tile_at(g, x, y)));
    }
    assert forall|y: int, x: int|
        0 <= y < g.len() && 0 <= x < sx implies claimed_p()(#[trigger] g[y][x]) by {
        assert(in_bounds(sx, sy, x, y));
        assert(b.tile(x, y).owner != Owner::Empty);
    }
    lemma_count_grid_all(g, claimed_p(), sx);
    assert(sy * sx == sx * sy) by (nonlinear_arith);
    lemma_fill_counter(b);
}

/// The fill counter of a well-formed board equals the number of cells
/// whose four edges are all drawn, and equals the two players' claim counts
/// taken together.
pub proof fn lemma_fill_counter(b: Board)
    requires
        b.wf(),
    ensures
        b.filled == count_grid(b.grid(), full_p()),
        b.filled == count_grid(b.grid(), owner_p(Owner::Player1)) + count_grid(
            b.grid(),
            owner_p(Owner::Player2),
        ),
{
    let g = b.grid();
    assert forall|y: int, x: int|
        0 <= y < g.len() && 0 <= x < g[y].len() implies claimed_p()(#[trigger] g[y][x])
        == full_p()(g[y][x]) by {
        assert(owner_matches_full(tile_at(g, x, y)));
    }
    lemma_count_grid_pointwise(g, claimed_p(), full_p());
    lemma_count_grid_split(g);
}

} // verus!
