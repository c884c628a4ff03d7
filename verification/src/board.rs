use vstd::prelude::*;
use crate::counting::{claimed_p, count_grid, count_row, lemma_count_grid_bound,
    lemma_count_grid_extend, lemma_count_grid_missing, lemma_count_grid_update,
    lemma_count_row_bound, lemma_count_row_extend, lemma_count_row_update, owner_p};

verus! {

/// Ownership state of a cell: unclaimed, or claimed by one of the two players.
#[derive(Clone, Copy, PartialEq, Eq, Structural, Debug)]
pub enum Owner {
    Empty,
    Player1,
    Player2,
}

impl Owner {
    /// The other player; `Empty` stays `Empty`.
    pub open spec fn ticked(self) -> Owner {
        match self {
            Owner::Player1 => Owner::Player2,
            Owner::Player2 => Owner::Player1,
            Owner::Empty => Owner::Empty,
        }
    }

    /// Switch to the other player in place.
    pub fn tick(&mut self)
        ensures
            *final(self) == old(self).ticked(),
    {
        match *self {
            Owner::Player1 => *self = Owner::Player2,
            Owner::Player2 => *self = Owner::Player1,
            Owner::Empty => *self = Owner::Empty,
        }
    }
}

impl Default for Owner {
    fn default() -> (r: Self)
        ensures
            r == Owner::Empty,
    {
        Owner::Empty
    }
}

/// One of the four sides of a cell.
#[derive(Clone, Copy, PartialEq, Eq, Structural, Debug)]
pub enum Direction {
    North,
    South,
    East,
    West,
}

impl Direction {
    /// The opposite side: the one a neighboring cell shows to this cell.
    pub open spec fn opposite_spec(self) -> Direction {
        match self {
            Direction::North => Direction::South,
            Direction::South => Direction::North,
            Direction::East => Direction::West,
            Direction::West => Direction::East,
        }
    }

    /// Executable form of `opposite_spec`.
    pub fn opposite(self) -> (r: Direction)
        ensures
            r == self.opposite_spec(),
    {
        match self {
            Direction::North => Direction::South,
            Direction::South => Direction::North,
            Direction::East => Direction::West,
            Direction::West => Direction::East,
        }
    }

    /// All four directions, in canonical order.
    pub fn iterator() -> (r: Vec<Direction>)
        ensures
            r@ == seq![Direction::North, Direction::South, Direction::East, Direction::West],
    {
        let mut v: Vec<Direction> = Vec::new();
        v.push(Direction::North);
        v.push(Direction::South);
        v.push(Direction::East);
        v.push(Direction::West);
        proof {
            assert(v@ =~= seq![
                Direction::North,
                Direction::South,
                Direction::East,
                Direction::West,
            ]);
        }
        v
    }

    /// The direction at position `i` of the canonical order; anything past the
    /// end maps to `North`.
    pub open spec fn from_index(i: int) -> Direction {
        if i == 0 {
            Direction::North
        } else if i == 1 {
            Direction::South
        } else if i == 2 {
            Direction::East
        } else if i == 3 {
            Direction::West
        } else {
            Direction::North
        }
    }

    /// Executable form of `from_index`.
    pub fn index(i: usize) -> (r: Direction)
        ensures
            r == Direction::from_index(i as int),
    {
        match i {
            0 => Direction::North,
            1 => Direction::South,
            2 => Direction::East,
            3 => Direction::West,
            _ => Direction::North,
        }
    }
}

/// One grid cell: four edge flags and an ownership state.  The same physical
/// edge between two adjacent cells is stored twice, once on each cell; the
/// consistency invariant says the two copies agree.
#[derive(Clone, Copy, PartialEq, Eq, Structural, Debug)]
pub struct Tile {
    pub owner: Owner,
    pub north: bool,
    pub south: bool,
    pub west: bool,
    pub east: bool,
}

impl Tile {
    /// The edge flag facing direction `d`.
    pub open spec fn edge(self, d: Direction) -> bool {
        match d {
            Direction::North => self.north,
            Direction::South => self.south,
            Direction::East => self.east,
            Direction::West => self.west,
        }
    }

    /// All four edges drawn.
    pub open spec fn full(self) -> bool {
        self.north && self.south && self.west && self.east
    }

    /// The tile with the edge facing `d` drawn, all else unchanged.
    pub open spec fn with_edge(self, d: Direction) -> Tile {
        match d {
            Direction::North => Tile { north: true, ..self },
            Direction::South => Tile { south: true, ..self },
            Direction::East => Tile { east: true, ..self },
            Direction::West => Tile { west: true, ..self },
        }
    }

    /// The tile after ownership resolution on behalf of `player`: an
    /// unclaimed tile whose four edges are all drawn is claimed by `player`;
    /// any other tile is unchanged.
    pub open spec fn resolved(self, player: Owner) -> Tile {
        if self.owner == Owner::Empty && self.full() {
            Tile { owner: player, ..self }
        } else {
            self
        }
    }

    /// A fresh tile: no edges drawn, unclaimed.
    pub open spec fn blank() -> Tile {
        Tile { owner: Owner::Empty, north: false, south: false, west: false, east: false }
    }

    /// Read the edge flag facing `d`.
    pub fn get_edge(&self, d: Direction) -> (b: bool)
        ensures
            b == self.edge(d),
    {
        match d {
            Direction::North => self.north,
            Direction::South => self.south,
            Direction::East => self.east,
            Direction::West => self.west,
        }
    }

    /// Draw the edge facing `d`.
    pub fn set_edge(&mut self, d: Direction)
        ensures
            *final(self) == old(self).with_edge(d),
    {
        match d {
            Direction::North => self.north = true,
            Direction::South => self.south = true,
            Direction::East => self.east = true,
            Direction::West => self.west = true,
        }
    }

    /// The one undrawn edge of a tile that has exactly three edges drawn,
    /// `None` for any other tile.
    pub open spec fn almost_full_spec(self) -> Option<Direction> {
        if !self.north && self.south && self.east && self.west {
            Some(Direction::North)
        } else if self.north && !self.south && self.east && self.west {
            Some(Direction::South)
        } else if self.north && self.south && !self.east && self.west {
            Some(Direction::East)
        } else if self.north && self.south && self.east && !self.west {
            Some(Direction::West)
        } else {
            None
        }
    }

    /// If exactly three edges of this tile are drawn, return the fourth,
    /// still open one: drawing it would complete the cell.
    pub fn almost_full(&self) -> (r: Option<Direction>)
        ensures
            r == self.almost_full_spec(),
            r matches Some(d) ==> !self.edge(d) && self.with_edge(d).full(),
    {
        if !self.north && self.south && self.east && self.west {
            Some(Direction::North)
        } else if self.north && !self.south && self.east && self.west {
            Some(Direction::South)
        } else if self.north && self.south && !self.east && self.west {
            Some(Direction::East)
        } else if self.north && self.south && self.east && !self.west {
            Some(Direction::West)
        } else {
            None
        }
    }

    /// Claim this tile for `player` if it is unclaimed and all four of its
    /// edges are drawn; report whether a claim happened.
    pub fn resolve(&mut self, player: Owner) -> (claimed: bool)
        ensures
            *final(self) == old(self).resolved(player),
            claimed == (old(self).owner == Owner::Empty && old(self).full()),
    {
        if self.owner == Owner::Empty {
            if self.north && self.south && self.west && self.east {
                self.owner = player;
                true
            } else {
                false
            }
        } else {
            false
        }
    }
}

impl Default for Tile {
    fn default() -> (r: Self)
        ensures
            r == Tile::blank(),
    {
        Tile { owner: Owner::Empty, north: false, south: false, west: false, east: false }
    }
}

/// Errors of the engine.  `InvalidDimensions` rejects construction with a
/// zero dimension; `ConsistencyViolation` names a cell and a direction whose
/// drawn edge has no drawn mirror on the neighboring cell.
#[derive(Clone, Copy, PartialEq, Eq, Structural, Debug)]
pub enum BoardError {
    InvalidDimensions,
    ConsistencyViolation { x: usize, y: usize, direction: Direction },
}

/// The tile of grid `g` at column `x`, row `y`.
pub open spec fn tile_at(g: Seq<Seq<Tile>>, x: int, y: int) -> Tile {
    g[y][x]
}

/// `g` is a rectangle of `sy` rows, each of width `sx`.
pub open spec fn grid_dims(g: Seq<Seq<Tile>>, sx: int, sy: int) -> bool {
    &&& g.len() == sy
    &&& forall|y: int| 0 <= y < sy ==> #[trigger] g[y].len() == sx
}

/// `(x, y)` addresses a cell of an `sx` by `sy` grid.
pub open spec fn in_bounds(sx: int, sy: int, x: int, y: int) -> bool {
    0 <= x < sx && 0 <= y < sy
}

/// The cell at `(x, y)` has a neighbor across its edge facing `d`, i.e. that
/// edge is not on the grid's outer boundary.
pub open spec fn neighbor_exists(sx: int, sy: int, x: int, y: int, d: Direction) -> bool {
    match d {
        Direction::North => y > 0,
        Direction::South => y + 1 < sy,
        Direction::East => x + 1 < sx,
        Direction::West => x > 0,
    }
}

/// Column of the neighbor across the edge facing `d`.
pub open spec fn neighbor_x(x: int, d: Direction) -> int {
    match d {
        Direction::East => x + 1,
        Direction::West => x - 1,
        _ => x,
    }
}

/// Row of the neighbor across the edge facing `d`.
pub open spec fn neighbor_y(y: int, d: Direction) -> int {
    match d {
        Direction::North => y - 1,
        Direction::South => y + 1,
        _ => y,
    }
}

/// The drawn edge of cell `(x, y)` facing `d` is mirrored: if a neighbor
/// exists across that edge, the neighbor's edge facing back is drawn too.
pub open spec fn mirrored_ok(g: Seq<Seq<Tile>>, sx: int, sy: int, x: int, y: int, d: Direction) -> bool {
    (tile_at(g, x, y).edge(d) && neighbor_exists(sx, sy, x, y, d)) ==> tile_at(
        g,
        neighbor_x(x, d),
        neighbor_y(y, d),
    ).edge(d.opposite_spec())
}

/// The core structural invariant: every drawn interior edge is mirrored on
/// the neighboring cell.
pub open spec fn consistent(g: Seq<Seq<Tile>>, sx: int, sy: int) -> bool {
    forall|x: int, y: int, d: Direction|
        in_bounds(sx, sy, x, y) ==> #[trigger] mirrored_ok(g, sx, sy, x, y, d)
}

/// A tile is claimed exactly when its four edges are all drawn.  This holds
/// of every tile reachable through the engine: the move that draws a fourth
/// edge resolves ownership at once.
pub open spec fn owner_matches_full(t: Tile) -> bool {
    (t.owner != Owner::Empty) <==> t.full()
}

/// `owner_matches_full` over the whole grid.
pub open spec fn owners_ok(g: Seq<Seq<Tile>>, sx: int, sy: int) -> bool {
    forall|x: int, y: int|
        in_bounds(sx, sy, x, y) ==> owner_matches_full(#[trigger] tile_at(g, x, y))
}

/// One half of a move: draw the edge of cell `(x, y)` facing `d`, then
/// resolve that cell's ownership on behalf of `p`.
pub open spec fn draw_step(g: Seq<Seq<Tile>>, x: int, y: int, d: Direction, p: Owner) -> Seq<
    Seq<Tile>,
> {
    g.update(y, g[y].update(x, tile_at(g, x, y).with_edge(d).resolved(p)))
}

/// A whole move: the dual write.  Draw the named edge on its cell, and the
/// same physical edge on the neighboring cell across it, if one exists;
/// ownership is resolved for each touched cell in turn.
pub open spec fn apply_move_spec(g: Seq<Seq<Tile>>, sx: int, sy: int, m: Move) -> Seq<Seq<Tile>> {
    let g1 = draw_step(g, m.x as int, m.y as int, m.direction, m.owner);
    if neighbor_exists(sx, sy, m.x as int, m.y as int, m.direction) {
        draw_step(
            g1,
            neighbor_x(m.x as int, m.direction),
            neighbor_y(m.y as int, m.direction),
            m.direction.opposite_spec(),
            m.owner,
        )
    } else {
        g1
    }
}

/// A request to draw the edge of cell `(x, y)` facing `direction`, on behalf
/// of the acting player `owner`.
#[derive(Clone, Copy, PartialEq, Eq, Structural, Debug)]
pub struct Move {
    pub x: usize,
    pub y: usize,
    pub direction: Direction,
    pub owner: Owner,
}

/// The game board: a rectangle of tiles, addressed first by row (`y`), then
/// by column (`x`), and the count of claimed cells.
#[derive(Clone, Debug)]
pub struct Board {
    pub size_x: usize,
    pub size_y: usize,
    pub board: Vec<Vec<Tile>>,
    pub filled: usize,
}

impl Board {
    /// The mathematical view of the tile storage.
    pub open spec fn grid(self) -> Seq<Seq<Tile>> {
        self.board@.map_values(|row: Vec<Tile>| row@)
    }

    /// The tile at column `x`, row `y`.
    pub open spec fn tile(self, x: int, y: int) -> Tile {
        tile_at(self.grid(), x, y)
    }

    /// The storage is a rectangle of the stated dimensions, both dimensions
    /// are positive, and the cell count fits the machine.
    pub open spec fn dims_ok(self) -> bool {
        &&& 1 <= self.size_x
        &&& 1 <= self.size_y
        &&& self.size_x * self.size_y <= usize::MAX
        &&& grid_dims(self.grid(), self.size_x as int, self.size_y as int)
    }

    /// Full well-formedness: the dimensions, the mirrored-edge invariant,
    /// ownership agreeing with fullness, and the fill counter equal to the
    /// number of claimed cells.
    pub open spec fn wf(self) -> bool {
        &&& self.dims_ok()
        &&& consistent(self.grid(), self.size_x as int, self.size_y as int)
        &&& owners_ok(self.grid(), self.size_x as int, self.size_y as int)
        &&& self.filled == count_grid(self.grid(), claimed_p())
    }

    /// Construct a board of the given dimensions, all edges undrawn and all
    /// cells unclaimed.  A zero dimension is rejected with
    /// `InvalidDimensions`.
    pub fn new(size_x: usize, size_y: usize) -> (r: Result<Board, BoardError>)
        requires
            size_x * size_y <= usize::MAX,
        ensures
            r is Ok <==> (size_x > 0 && size_y > 0),
            r matches Err(e) ==> e == BoardError::InvalidDimensions,
            r matches Ok(b) ==> b.wf() && b.size_x == size_x && b.size_y == size_y && b.filled
                == 0 && (forall|x: int, y: int|
                in_bounds(size_x as int, size_y as int, x, y) ==> #[trigger] b.tile(x, y)
                    == Tile::blank()),
    {
        if size_x == 0 || size_y == 0 {
            return Err(BoardError::InvalidDimensions);
        }
        let mut rows: Vec<Vec<Tile>> = Vec::new();
        let mut y: usize = 0;
        while y < size_y
            invariant
                y <= size_y,
                rows@.len() == y,
                forall|i: int| 0 <= i < y ==> (#[trigger] rows@[i])@.len() == size_x,
                forall|i: int, j: int|
                    0 <= i < y && 0 <= j < size_x ==> (#[trigger] rows@[i]@[j]) == Tile::blank(),
            decreases size_y - y,
        {
            let mut row: Vec<Tile> = Vec::new();
            let mut x: usize = 0;
            while x < size_x
                invariant
                    x <= size_x,
                    row@.len() == x,
                    forall|j: int| 0 <= j < x ==> #[trigger] row@[j] == Tile::blank(),
                decreases size_x - x,
            {
                row.push(Tile {
                    owner: Owner::Empty,
                    north: false,
                    south: false,
                    west: false,
                    east: false,
                });
                x = x + 1;
            }
            rows.push(row);
            y = y + 1;
        }
        let b = Board { size_x, size_y, board: rows, filled: 0 };
        proof {
            assert forall|x: int, y2: int|
                in_bounds(size_x as int, size_y as int, x, y2) implies #[trigger] b.tile(x, y2)
                == Tile::blank() by {
                assert(b.grid()[y2] == b.board@[y2]@);
            }
            assert(grid_dims(b.grid(), size_x as int, size_y as int));
            lemma_grid_blank_counts(b.grid(), size_x as int, size_y as int);
        }
        Ok(b)
    }

    /// Whether the cell at `(x, y)` has a neighbor across its edge facing
    /// `direction`.
    pub fn has_neighbor(&self, x: usize, y: usize, direction: Direction) -> (r: bool)
        requires
            x < self.size_x,
            y < self.size_y,
        ensures
            r == neighbor_exists(
                self.size_x as int,
                self.size_y as int,
                x as int,
                y as int,
                direction,
            ),
    {
        match direction {
            Direction::North => y > 0,
            Direction::South => y + 1 < self.size_y,
            Direction::East => x + 1 < self.size_x,
            Direction::West => x > 0,
        }
    }

    /// The mirrored copy of the edge of cell `(index_x, index_y)` facing
    /// `direction`: the flag the neighboring cell holds for the same
    /// physical edge, or `None` if the edge lies on the outer boundary.
    pub fn adjacent_line(&self, index_x: usize, index_y: usize, direction: Direction) -> (r:
        Option<bool>)
        requires
            self.dims_ok(),
            index_x < self.size_x,
            index_y < self.size_y,
        ensures
            r is Some <==> neighbor_exists(
                self.size_x as int,
                self.size_y as int,
                index_x as int,
                index_y as int,
                direction,
            ),
            r matches Some(drawn) ==> drawn == self.tile(
                neighbor_x(index_x as int, direction),
                neighbor_y(index_y as int, direction),
            ).edge(direction.opposite_spec()),
    {
        proof {
            assert(self.grid()[index_y as int] == self.board@[index_y as int]@);
        }
        match direction {
            Direction::North => {
                if index_y > 0 {
                    proof {
                        assert(self.grid()[index_y - 1] == self.board@[index_y - 1]@);
                    }
                    Some(self.board[index_y - 1][index_x].get_edge(direction.opposite()))
                } else {
                    None
                }
            },
            Direction::South => {
                if index_y + 1 < self.size_y {
                    proof {
                        assert(self.grid()[index_y + 1] == self.board@[index_y + 1]@);
                    }
                    Some(self.board[index_y + 1][index_x].get_edge(direction.opposite()))
                } else {
                    None
                }
            },
            Direction::East => {
                if index_x + 1 < self.size_x {
                    Some(self.board[index_y][index_x + 1].get_edge(direction.opposite()))
                } else {
                    None
                }
            },
            Direction::West => {
                if index_x > 0 {
                    Some(self.board[index_y][index_x - 1].get_edge(direction.opposite()))
                } else {
                    None
                }
            },
        }
    }

    /// Draw the edge of cell `(x, y)` facing `d` and resolve that one
    /// cell's ownership on behalf of `p`, keeping the fill counter equal to
    /// the number of claimed cells.  This is one half of a move's dual
    /// write.
    fn draw_and_resolve(&mut self, x: usize, y: usize, d: Direction, p: Owner)
        requires
            old(self).dims_ok(),
            x < old(self).size_x,
            y < old(self).size_y,
            old(self).filled == count_grid(old(self).grid(), claimed_p()),
            p != Owner::Empty,
        ensures
            final(self).size_x == old(self).size_x,
            final(self).size_y == old(self).size_y,
            final(self).dims_ok(),
            final(self).grid() == draw_step(old(self).grid(), x as int, y as int, d, p),
            final(self).filled == count_grid(final(self).grid(), claimed_p()),
            final(self).filled == old(self).filled + (if claims(
                old(self).tile(x as int, y as int),
                d,
            ) {
                1int
            } else {
                0int
            }),
    {
        let ghost g0 = self.grid();
        let ghost t0 = tile_at(g0, x as int, y as int);
        proof {
            assert(g0[y as int] == self.board@[y as int]@);
        }
        let mut t = self.board[y][x];
        t.set_edge(d);
        let claimed = t.resolve(p);
        if claimed {
            proof {
                lemma_count_grid_missing(g0, claimed_p(), old(self).size_x as int, x as int,
                    y as int);
            }
            self.filled = self.filled + 1;
        }
        self.board[y][x] = t;
        proof {
            let g1 = self.grid();
            assert(g1 =~~= draw_step(g0, x as int, y as int, d, p));
            assert forall|cy: int| 0 <= cy < self.size_y implies #[trigger] g1[cy].len()
                == self.size_x by {
                if cy != y {
                    assert(g1[cy] == g0[cy]);
                }
            }
            lemma_count_grid_update(g0, claimed_p(), y as int, g0[y as int].update(x as int, t));
            lemma_count_row_update(g0[y as int], claimed_p(), x as int, t);
        }
    }

    /// Apply a move: draw the named edge, mirror the same physical edge
    /// onto the adjacent cell in the opposite direction if that cell
    /// exists, and resolve ownership for each touched cell.  Every
    /// invariant of `wf` is preserved; the fill counter grows by the number
    /// of cells the move completed.
    pub fn make_move(&mut self, m: Move)
        requires
            old(self).wf(),
            m.x < old(self).size_x,
            m.y < old(self).size_y,
            m.owner != Owner::Empty,
        ensures
            final(self).wf(),
            final(self).size_x == old(self).size_x,
            final(self).size_y == old(self).size_y,
            final(self).grid() == apply_move_spec(
                old(self).grid(),
                old(self).size_x as int,
                old(self).size_y as int,
                m,
            ),
            final(self).filled >= old(self).filled,
            final(self).filled == old(self).filled + (if claims(
                old(self).tile(m.x as int, m.y as int),
                m.direction,
            ) {
                1int
            } else {
                0int
            }) + (if neighbor_exists(
                old(self).size_x as int,
                old(self).size_y as int,
                m.x as int,
                m.y as int,
                m.direction,
            ) && claims(
                tile_at(
                    draw_step(old(self).grid(), m.x as int, m.y as int, m.direction, m.owner),
                    neighbor_x(m.x as int, m.direction),
                    neighbor_y(m.y as int, m.direction),
                ),
                m.direction.opposite_spec(),
            ) {
                1int
            } else {
                0int
            }),
    {
        let ghost g0 = self.grid();
        let ghost sx = self.size_x as int;
        let ghost sy = self.size_y as int;
        self.draw_and_resolve(m.x, m.y, m.direction, m.owner);
        proof {
            lemma_draw_step_owners(g0, sx, sy, m.x as int, m.y as int, m.direction, m.owner);
        }
        if self.has_neighbor(m.x, m.y, m.direction) {
            let nx = match m.direction {
                Direction::East => m.x + 1,
                Direction::West => m.x - 1,
                _ => m.x,
            };
            let ny = match m.direction {
                Direction::North => m.y - 1,
                Direction::South => m.y + 1,
                _ => m.y,
            };
            let ghost g1 = self.grid();
            self.draw_and_resolve(nx, ny, m.direction.opposite(), m.owner);
            proof {
                lemma_draw_step_owners(g1, sx, sy, nx as int, ny as int,
                    m.direction.opposite_spec(), m.owner);
            }
        }
        proof {
            lemma_apply_preserves_consistent(g0, sx, sy, m);
        }
    }

    /// Count the cells claimed by each player: `[player 1, player 2]`.
    /// Unclaimed cells are counted by neither.
    pub fn count_owners(&self) -> (r: [u64; 2])
        requires
            self.dims_ok(),
        ensures
            r[0] == count_grid(self.grid(), owner_p(Owner::Player1)),
            r[1] == count_grid(self.grid(), owner_p(Owner::Player2)),
    {
        let ghost g = self.grid();
        let ghost sx = self.size_x as int;
        let ghost sy = self.size_y as int;
        let mut player1: u64 = 0;
        let mut player2: u64 = 0;
        let mut i: usize = 0;
        while i < self.size_y
            invariant
                self.dims_ok(),
                g == self.grid(),
                sx == self.size_x as int,
                sy == self.size_y as int,
                i <= self.size_y,
                player1 == count_grid(g.subrange(0, i as int), owner_p(Owner::Player1)),
                player2 == count_grid(g.subrange(0, i as int), owner_p(Owner::Player2)),
            decreases self.size_y - i,
        {
            let ghost row = g[i as int];
            proof {
                assert(g[i as int] == self.board@[i as int]@);
            }
            let mut j: usize = 0;
            while j < self.size_x
                invariant
                    self.dims_ok(),
                    g == self.grid(),
                    sx == self.size_x as int,
                    sy == self.size_y as int,
                    i < self.size_y,
                    j <= self.size_x,
                    row == g[i as int],
                    row == self.board@[i as int]@,
                    player1 == count_grid(g.subrange(0, i as int), owner_p(Owner::Player1))
                        + count_row(row.subrange(0, j as int), owner_p(Owner::Player1)),
                    player2 == count_grid(g.subrange(0, i as int), owner_p(Owner::Player2))
                        + count_row(row.subrange(0, j as int), owner_p(Owner::Player2)),
                decreases self.size_x - j,
            {
                proof {
                    lemma_count_grid_bound(g.subrange(0, i as int), owner_p(Owner::Player1), sx);
                    lemma_count_grid_bound(g.subrange(0, i as int), owner_p(Owner::Player2), sx);
                    lemma_count_row_bound(row.subrange(0, j as int), owner_p(Owner::Player1));
                    lemma_count_row_bound(row.subrange(0, j as int), owner_p(Owner::Player2));
                    assert(i * sx + j < sy * sx) by (nonlinear_arith)
                        requires
                            0 <= i < sy,
                            0 <= j < sx,
                    ;
                    lemma_count_row_extend(row, owner_p(Owner::Player1), j as int);
                    lemma_count_row_extend(row, owner_p(Owner::Player2), j as int);
                }
                match self.board[i][j].owner {
                    Owner::Player1 => player1 = player1 + 1,
                    Owner::Player2 => player2 = player2 + 1,
                    Owner::Empty => (),
                }
                j = j + 1;
            }
            proof {
                lemma_count_grid_extend(g, owner_p(Owner::Player1), i as int);
                lemma_count_grid_extend(g, owner_p(Owner::Player2), i as int);
                assert(row.subrange(0, sx) =~= row);
            }
            i = i + 1;
        }
        proof {
            assert(g.subrange(0, sy) =~= g);
        }
        [player1, player2]
    }

    /// Look for a drawn edge of cell `(x, y)` whose mirror on the
    /// neighboring cell is missing; report its direction.
    fn cell_mirror_violation(&self, x: usize, y: usize) -> (r: Option<Direction>)
        requires
            self.dims_ok(),
            x < self.size_x,
            y < self.size_y,
        ensures
            r is None <==> (forall|d: Direction|
                #[trigger] mirrored_ok(
                    self.grid(),
                    self.size_x as int,
                    self.size_y as int,
                    x as int,
                    y as int,
                    d,
                )),
            r matches Some(d) ==> !mirrored_ok(
                self.grid(),
                self.size_x as int,
                self.size_y as int,
                x as int,
                y as int,
                d,
            ),
    {
        let dirs = Direction::iterator();
        let mut k: usize = 0;
        while k < dirs.len()
            invariant
                self.dims_ok(),
                x < self.size_x,
                y < self.size_y,
                dirs@ == seq![Direction::North, Direction::South, Direction::East, Direction::West],
                k <= dirs@.len(),
                forall|i: int|
                    0 <= i < k ==> mirrored_ok(
                        self.grid(),
                        self.size_x as int,
                        self.size_y as int,
                        x as int,
                        y as int,
                        #[trigger] dirs@[i],
                    ),
            decreases dirs@.len() - k,
        {
            let d = dirs[k];
            proof {
                assert(self.grid()[y as int] == self.board@[y as int]@);
            }
            if self.board[y][x].get_edge(d) {
                match self.adjacent_line(x, y, d) {
                    Some(drawn) => {
                        if !drawn {
                            proof {
                                assert(!mirrored_ok(
                                    self.grid(),
                                    self.size_x as int,
                                    self.size_y as int,
                                    x as int,
                                    y as int,
                                    d,
                                ));
                            }
                            return Some(d);
                        }
                    },
                    None => (),
                }
            }
            k = k + 1;
        }
        proof {
            assert forall|d: Direction|
                #[trigger] mirrored_ok(
                    self.grid(),
                    self.size_x as int,
                    self.size_y as int,
                    x as int,
                    y as int,
                    d,
                ) by {
                if d == Direction::North {
                    assert(dirs@[0] == d);
                } else if d == Direction::South {
                    assert(dirs@[1] == d);
                } else if d == Direction::East {
                    assert(dirs@[2] == d);
                } else {
                    assert(dirs@[3] == d);
                }
            }
        }
        None
    }

    /// Walk every cell and every direction; verify that each drawn interior
    /// edge is mirrored on the neighboring cell.  The first mismatch is
    /// reported as a `ConsistencyViolation` naming the offending cell and
    /// direction; a well-formed board never produces one.
    pub fn check_consistency(&self) -> (r: Result<(), BoardError>)
        requires
            self.dims_ok(),
        ensures
            r is Ok <==> consistent(self.grid(), self.size_x as int, self.size_y as int),
            r matches Err(e) ==> (e matches BoardError::ConsistencyViolation {
                x,
                y,
                direction,
            } && in_bounds(self.size_x as int, self.size_y as int, x as int, y as int)
                && !mirrored_ok(
                self.grid(),
                self.size_x as int,
                self.size_y as int,
                x as int,
                y as int,
                direction,
            )),
    {
        let ghost g = self.grid();
        let ghost sx = self.size_x as int;
        let ghost sy = self.size_y as int;
        let mut i: usize = 0;
        while i < self.size_y
            invariant
                self.dims_ok(),
                g == self.grid(),
                sx == self.size_x as int,
                sy == self.size_y as int,
                i <= self.size_y,
                forall|cx: int, cy: int, d: Direction|
                    0 <= cx < sx && 0 <= cy < i ==> #[trigger] mirrored_ok(g, sx, sy, cx, cy, d),
            decreases self.size_y - i,
        {
            let mut j: usize = 0;
            while j < self.size_x
                invariant
                    self.dims_ok(),
                    g == self.grid(),
                    sx == self.size_x as int,
                    sy == self.size_y as int,
                    i < self.size_y,
                    j <= self.size_x,
                    forall|cx: int, cy: int, d: Direction|
                        0 <= cx < sx && 0 <= cy < i ==> #[trigger] mirrored_ok(
                            g,
                            sx,
                            sy,
                            cx,
                            cy,
                            d,
                        ),
                    forall|cx: int, d: Direction|
                        0 <= cx < j ==> #[trigger] mirrored_ok(g, sx, sy, cx, i as int, d),
                decreases self.size_x - j,
            {
                match self.cell_mirror_violation(j, i) {
                    Some(direction) => {
                        return Err(BoardError::ConsistencyViolation { x: j, y: i, direction });
                    },
                    None => (),
                }
                j = j + 1;
            }
            i = i + 1;
        }
        Ok(())
    }

    /// Whether the oriented edge named by `potential_move` is still undrawn.
    pub fn check_if_free(&self, potential_move: &Move) -> (r: bool)
        requires
            self.dims_ok(),
            potential_move.x < self.size_x,
            potential_move.y < self.size_y,
        ensures
            r == !self.tile(potential_move.x as int, potential_move.y as int).edge(
                potential_move.direction,
            ),
    {
        proof {
            assert(self.grid()[potential_move.y as int] == self.board@[potential_move.y as int]@);
        }
        !self.board[potential_move.y][potential_move.x].get_edge(potential_move.direction)
    }
}

/// Drawing the edge facing `d` would hand the cell to the acting player:
/// the cell is unclaimed and `d` is its one missing edge.
pub open spec fn claims(t: Tile, d: Direction) -> bool {
    t.owner == Owner::Empty && t.with_edge(d).full()
}

/// `draw_step` changes exactly the cell it names, to the drawn-and-resolved
/// tile, and keeps the grid's dimensions.
pub proof fn lemma_draw_step_frame(
    g: Seq<Seq<Tile>>,
    sx: int,
    sy: int,
    x: int,
    y: int,
    d: Direction,
    p: Owner,
)
    requires
        grid_dims(g, sx, sy),
        in_bounds(sx, sy, x, y),
    ensures
        grid_dims(draw_step(g, x, y, d, p), sx, sy),
        tile_at(draw_step(g, x, y, d, p), x, y) == tile_at(g, x, y).with_edge(d).resolved(p),
        forall|cx: int, cy: int|
            in_bounds(sx, sy, cx, cy) && !(cx == x && cy == y) ==> #[trigger] tile_at(
                draw_step(g, x, y, d, p),
                cx,
                cy,
            ) == tile_at(g, cx, cy),
{
    let g2 = draw_step(g, x, y, d, p);
    assert(g2.len() == g.len());
    assert forall|cy: int| 0 <= cy < sy implies #[trigger] g2[cy].len() == sx by {
        if cy != y {
            assert(g2[cy] == g[cy]);
        }
    }
}

/// `draw_step` preserves the ownership invariant, provided the acting
/// player is a real player.
pub proof fn lemma_draw_step_owners(
    g: Seq<Seq<Tile>>,
    sx: int,
    sy: int,
    x: int,
    y: int,
    d: Direction,
    p: Owner,
)
    requires
        grid_dims(g, sx, sy),
        in_bounds(sx, sy, x, y),
        owners_ok(g, sx, sy),
        p != Owner::Empty,
    ensures
        owners_ok(draw_step(g, x, y, d, p), sx, sy),
{
    let g2 = draw_step(g, x, y, d, p);
    lemma_draw_step_frame(g, sx, sy, x, y, d, p);
    assert forall|cx: int, cy: int|
        in_bounds(sx, sy, cx, cy) implies owner_matches_full(#[trigger] tile_at(g2, cx, cy)) by {
        if cx == x && cy == y {
            assert(owner_matches_full(tile_at(g, x, y)));
        } else {
            assert(tile_at(g2, cx, cy) == tile_at(g, cx, cy));
            assert(owner_matches_full(tile_at(g, cx, cy)));
        }
    }
}

/// A whole move keeps the mirrored-edge invariant: it never draws an
/// interior edge on one side only.
pub proof fn lemma_apply_preserves_consistent(g: Seq<Seq<Tile>>, sx: int, sy: int, m: Move)
    requires
        grid_dims(g, sx, sy),
        consistent(g, sx, sy),
        in_bounds(sx, sy, m.x as int, m.y as int),
    ensures
        consistent(apply_move_spec(g, sx, sy, m), sx, sy),
{
    let x = m.x as int;
    let y = m.y as int;
    let d = m.direction;
    let p = m.owner;
    let g1 = draw_step(g, x, y, d, p);
    let g2 = apply_move_spec(g, sx, sy, m);
    let nb = neighbor_exists(sx, sy, x, y, d);
    let nx = neighbor_x(x, d);
    let ny = neighbor_y(y, d);
    lemma_draw_step_frame(g, sx, sy, x, y, d, p);
    if nb {
        lemma_draw_step_frame(g1, sx, sy, nx, ny, d.opposite_spec(), p);
    }
    assert forall|cx: int, cy: int, cd: Direction|
        in_bounds(sx, sy, cx, cy) implies #[trigger] mirrored_ok(g2, sx, sy, cx, cy, cd) by {
        if tile_at(g2, cx, cy).edge(cd) && neighbor_exists(sx, sy, cx, cy, cd) {
            let mx = neighbor_x(cx, cd);
            let my = neighbor_y(cy, cd);
            assert(in_bounds(sx, sy, mx, my));
            if tile_at(g, cx, cy).edge(cd) {
                // The edge was already drawn; its mirror was drawn too, and
                // edges are never erased.
                assert(mirrored_ok(g, sx, sy, cx, cy, cd));
                assert(tile_at(g, mx, my).edge(cd.opposite_spec()));
                if mx == x && my == y {
                    assert(tile_at(g2, mx, my).edge(cd.opposite_spec()));
                } else if nb && mx == nx && my == ny {
                    assert(tile_at(g2, mx, my).edge(cd.opposite_spec()));
                } else {
                    assert(tile_at(g2, mx, my) == tile_at(g, mx, my));
                }
            } else if cx == x && cy == y && cd == d {
                // The edge this move names: its mirror is the second write.
                assert(nb);
                assert(mx == nx && my == ny);
                assert(tile_at(g2, nx, ny) == tile_at(g1, nx, ny).with_edge(
                    d.opposite_spec(),
                ).resolved(p));
                assert(tile_at(g2, mx, my).edge(cd.opposite_spec()));
            } else {
                // The mirrored write itself: its mirror is the first write.
                assert(nb && cx == nx && cy == ny && cd == d.opposite_spec());
                assert(mx == x && my == y);
                assert(cd.opposite_spec() == d);
                assert(tile_at(g2, x, y).edge(d));
            }
        }
    }
}

/// A grid of blank tiles has no claimed tile.
proof fn lemma_grid_blank_counts(g: Seq<Seq<Tile>>, sx: int, sy: int)
    requires
        grid_dims(g, sx, sy),
        forall|x: int, y: int| in_bounds(sx, sy, x, y) ==> #[trigger] tile_at(g, x, y)
            == Tile::blank(),
    ensures
        count_grid(g, claimed_p()) == 0,
        owners_ok(g, sx, sy),
        consistent(g, sx, sy),
{
    lemma_count_grid_bound(g, claimed_p(), sx);
    if count_grid(g, claimed_p()) > 0 {
        lemma_grid_positive_count_has_claimed(g, claimed_p());
        let (x, y) = choose|x: int, y: int|
            0 <= y < g.len() && 0 <= x < g[y].len() && claimed_p()(#[trigger] g[y][x]);
        assert(tile_at(g, x, y) == Tile::blank());
    }
    assert forall|x: int, y: int|
        in_bounds(sx, sy, x, y) implies owner_matches_full(#[trigger] tile_at(g, x, y)) by {
        assert(tile_at(g, x, y) == Tile::blank());
    }
    assert forall|x: int, y: int, d: Direction|
        in_bounds(sx, sy, x, y) implies #[trigger] mirrored_ok(g, sx, sy, x, y, d) by {
        assert(tile_at(g, x, y) == Tile::blank());
    }
}

/// A positive grid count exhibits a witness tile.
proof fn lemma_grid_positive_count_has_claimed(g: Seq<Seq<Tile>>, p: spec_fn(Tile) -> bool)
    requires
        count_grid(g, p) > 0,
    ensures
        exists|x: int, y: int| 0 <= y < g.len() && 0 <= x < g[y].len() && p(#[trigger] g[y][x]),
    decreases g.len(),
{
    if g.len() > 0 {
        if count_row(g.last(), p) > 0 {
            lemma_row_positive_count_has_witness(g.last(), p);
            let x = choose|x: int| 0 <= x < g.last().len() && p(#[trigger] g.last()[x]);
            assert(g[g.len() - 1][x] == g.last()[x]);
        } else {
            lemma_grid_positive_count_has_claimed(g.drop_last(), p);
            let (x, y) = choose|x: int, y: int|
                0 <= y < g.drop_last().len() && 0 <= x < g.drop_last()[y].len() && p(
                    #[trigger] g.drop_last()[y][x],
                );
            assert(g[y][x] == g.drop_last()[y][x]);
        }
    }
}

/// A positive row count exhibits a witness tile.
proof fn lemma_row_positive_count_has_witness(row: Seq<Tile>, p: spec_fn(Tile) -> bool)
    requires
        count_row(row, p) > 0,
    ensures
        exists|x: int| 0 <= x < row.len() && p(#[trigger] row[x]),
    decreases row.len(),
{
    if row.len() > 0 {
        if p(row.last()) {
            assert(row[row.len() - 1] == row.last());
        } else {
            lemma_row_positive_count_has_witness(row.drop_last(), p);
            let x = choose|x: int| 0 <= x < row.drop_last().len() && p(#[trigger] row.drop_last()[x]);
            assert(row[x] == row.drop_last()[x]);
        }
    }
}

} // verus!
