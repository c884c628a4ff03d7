//! Move-selection strategies.  Both strategies only ever propose legal
//! moves: an in-bounds cell and an edge that is still undrawn.

use vstd::prelude::*;
use crate::board::{in_bounds, owner_matches_full, tile_at, Board, Direction, Move, Owner};
use crate::counting::{claimed_p, lemma_count_grid_all};

verus! {

/// A move-selection strategy, consulted once per turn by the game driver.
pub trait Player {
    /// Produce a legal move for the acting player `owner`: an in-bounds
    /// cell whose named edge is still undrawn.  The board must not be full,
    /// so that such an edge exists.
    fn make_move(&mut self, board: &Board, owner: Owner) -> (m: Move)
        requires
            board.wf(),
            owner != Owner::Empty,
            board.filled < board.size_x * board.size_y,
        ensures
            m.x < board.size_x,
            m.y < board.size_y,
            m.owner == owner,
            !board.tile(m.x as int, m.y as int).edge(m.direction),
    ;
}

/// Relies on rand::random_range: sampling `0..bound` with the thread-local
/// generator yields a value of the range, which is non-empty here.
#[verifier::external_body]
fn rand_below(bound: usize) -> (r: usize)
    requires
        bound > 0,
    ensures
        r < bound,
{
    rand::random_range(0..bound)
}

/// Picks uniformly random edges until it finds an undrawn one; after 1000
/// failed samples it settles for the first open edge in scanning order.
pub struct RandomPlayer {}

impl RandomPlayer {
    pub fn new() -> RandomPlayer {
        RandomPlayer {  }
    }
}

/// The first undrawn edge of the board, in scanning order: the board is not
/// full, so an unclaimed cell exists, and an unclaimed cell always has an
/// open edge.
fn first_free_move(board: &Board, owner: Owner) -> (m: Move)
    requires
        board.wf(),
        owner != Owner::Empty,
        board.filled < board.size_x * board.size_y,
    ensures
        m.x < board.size_x,
        m.y < board.size_y,
        m.owner == owner,
        !board.tile(m.x as int, m.y as int).edge(m.direction),
{
    let ghost g = board.grid();
    let ghost sx = board.size_x as int;
    let ghost sy = board.size_y as int;
    let mut i: usize = 0;
    while i < board.size_y
        invariant
            board.wf(),
            owner != Owner::Empty,
            board.filled < board.size_x * board.size_y,
            g == board.grid(),
            sx == board.size_x as int,
            sy == board.size_y as int,
            i <= board.size_y,
            forall|cx: int, cy: int|
                0 <= cx < sx && 0 <= cy < i ==> (#[trigger] tile_at(g, cx, cy)).owner
                    != Owner::Empty,
        decreases board.size_y - i,
    {
        let mut j: usize = 0;
        while j < board.size_x
            invariant
                board.wf(),
                owner != Owner::Empty,
                g == board.grid(),
                sx == board.size_x as int,
                sy == board.size_y as int,
                i < board.size_y,
                j <= board.size_x,
                forall|cx: int, cy: int|
                    0 <= cx < sx && 0 <= cy < i ==> (#[trigger] tile_at(g, cx, cy)).owner
                        != Owner::Empty,
                forall|cx: int|
                    0 <= cx < j ==> (#[trigger] tile_at(g, cx, i as int)).owner != Owner::Empty,
            decreases board.size_x - j,
        {
            proof {
                assert(board.grid()[i as int] == board.board@[i as int]@);
            }
            let t = board.board[i][j];
            if matches!(t.owner, Owner::Empty) {
                proof {
                    assert(owner_matches_full(tile_at(g, j as int, i as int)));
                }
                if !t.north {
                    return Move { x: j, y: i, owner, direction: Direction::North };
                } else if !t.south {
                    return Move { x: j, y: i, owner, direction: Direction::South };
                } else if !t.east {
                    return Move { x: j, y: i, owner, direction: Direction::East };
                } else {
                    return Move { x: j, y: i, owner, direction: Direction::West };
                }
            }
            j = j + 1;
        }
        i = i + 1;
    }
    proof {
        assert forall|y: int, x: int|
            0 <= y < g.len() && 0 <= x < sx implies claimed_p()(#[trigger] g[y][x]) by {
            assert(tile_at(g, x, y).owner != Owner::Empty);
        }
        lemma_count_grid_all(g, claimed_p(), sx);
        assert(false);
    }
    Move { x: 0, y: 0, owner, direction: Direction::North }
}

impl Player for RandomPlayer {
    fn make_move(&mut self, board: &Board, owner: Owner) -> (m: Move) {
        let mut attempts: usize = 0;
        while attempts < 1000
            invariant
                board.wf(),
                owner != Owner::Empty,
                board.filled < board.size_x * board.size_y,
            decreases 1000 - attempts,
        {
            let index_x = rand_below(board.size_x);
            let index_y = rand_below(board.size_y);
            let random_direction = rand_below(4);
            let potential_move = Move {
                x: index_x,
                y: index_y,
                owner,
                direction: Direction::index(random_direction),
            };
            if board.check_if_free(&potential_move) {
                return potential_move;
            }
            attempts = attempts + 1;
        }
        first_free_move(board, owner)
    }
}

/// The greedy pick: the first cell in row-major scanning order that has
/// exactly three edges drawn, as a move naming its one missing edge, or
/// `None` when no such cell exists anywhere on the board.
pub fn greedy_move(board: &Board, owner: Owner) -> (r: Option<Move>)
    requires
        board.dims_ok(),
    ensures
        r is Some <==> (exists|cx: int, cy: int|
            in_bounds(board.size_x as int, board.size_y as int, cx, cy) && (#[trigger] board.tile(
                cx,
                cy,
            )).almost_full_spec() is Some),
        r matches Some(m) ==> m.owner == owner && m.x < board.size_x && m.y < board.size_y
            && board.tile(m.x as int, m.y as int).almost_full_spec() == Some(m.direction)
            && !board.tile(m.x as int, m.y as int).edge(m.direction) && (forall|cx: int, cy: int|
            in_bounds(board.size_x as int, board.size_y as int, cx, cy) && (cy < m.y as int || (cy
                == m.y as int && cx < m.x as int)) ==> (#[trigger] board.tile(
                cx,
                cy,
            )).almost_full_spec() is None),
        r is None ==> (forall|cx: int, cy: int|
            in_bounds(board.size_x as int, board.size_y as int, cx, cy) ==> (#[trigger] board.tile(
                cx,
                cy,
            )).almost_full_spec() is None),
{
    let ghost g = board.grid();
    let ghost sx = board.size_x as int;
    let ghost sy = board.size_y as int;
    let mut i: usize = 0;
    while i < board.size_y
        invariant
            board.dims_ok(),
            g == board.grid(),
            sx == board.size_x as int,
            sy == board.size_y as int,
            i <= board.size_y,
            forall|cx: int, cy: int|
                0 <= cx < sx && 0 <= cy < i ==> (#[trigger] tile_at(
                    g,
                    cx,
                    cy,
                )).almost_full_spec() is None,
        decreases board.size_y - i,
    {
        let mut j: usize = 0;
        while j < board.size_x
            invariant
                board.dims_ok(),
                g == board.grid(),
                sx == board.size_x as int,
                sy == board.size_y as int,
                i < board.size_y,
                j <= board.size_x,
                forall|cx: int, cy: int|
                    0 <= cx < sx && 0 <= cy < i ==> (#[trigger] tile_at(
                        g,
                        cx,
                        cy,
                    )).almost_full_spec() is None,
                forall|cx: int|
                    0 <= cx < j ==> (#[trigger] tile_at(g, cx, i as int)).almost_full_spec()
                        is None,
            decreases board.size_x - j,
        {
            proof {
                assert(board.grid()[i as int] == board.board@[i as int]@);
            }
            match board.board[i][j].almost_full() {
                Some(direction) => {
                    proof {
                        assert(board.tile(j as int, i as int).almost_full_spec() is Some);
                    }
                    return Some(Move { x: j, y: i, owner, direction });
                },
                None => (),
            }
            j = j + 1;
        }
        i = i + 1;
    }
    None
}

/// Claims an almost-complete cell when one exists; otherwise falls back to
/// a random move.
pub struct SemiRandomPlayer {
    random_player: RandomPlayer,
}

impl SemiRandomPlayer {
    pub fn new() -> SemiRandomPlayer {
        SemiRandomPlayer { random_player: RandomPlayer::new() }
    }
}

impl Player for SemiRandomPlayer {
    /// Besides the trait's promise of a legal move: whenever some cell of
    /// the board is almost complete (exactly three edges drawn), the move
    /// names the first such cell in row-major scanning order, with its one
    /// missing edge.
    fn make_move(&mut self, board: &Board, owner: Owner) -> (m: Move)
        ensures
            (exists|cx: int, cy: int|
                in_bounds(board.size_x as int, board.size_y as int, cx, cy) && (
                #[trigger] board.tile(cx, cy)).almost_full_spec() is Some) ==> (board.tile(
                m.x as int,
                m.y as int,
            ).almost_full_spec() == Some(m.direction) && (forall|cx: int, cy: int|
                in_bounds(board.size_x as int, board.size_y as int, cx, cy) && (cy < m.y as int
                    || (cy == m.y as int && cx < m.x as int)) ==> (#[trigger] board.tile(
                    cx,
                    cy,
                )).almost_full_spec() is None)),
    {
        match greedy_move(board, owner) {
            Some(m) => m,
            None => self.random_player.make_move(board, owner),
        }
    }
}

} // verus!
