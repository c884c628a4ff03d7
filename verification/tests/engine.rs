use dots_and_boxes::board::{Board, BoardError, Direction, Move, Owner, Tile};
use dots_and_boxes::gameloop::{decide_winner, Winner};
use dots_and_boxes::players::{greedy_move, Player, RandomPlayer, SemiRandomPlayer};

fn blank_tile() -> Tile {
    Tile { owner: Owner::Empty, north: false, south: false, west: false, east: false }
}

fn mv(x: usize, y: usize, direction: Direction, owner: Owner) -> Move {
    Move { x, y, direction, owner }
}

#[test]
fn new_rejects_zero_width() {
    assert_eq!(Board::new(0, 3).unwrap_err(), BoardError::InvalidDimensions);
}

#[test]
fn new_rejects_zero_height() {
    assert_eq!(Board::new(5, 0).unwrap_err(), BoardError::InvalidDimensions);
}

#[test]
fn new_board_is_blank() {
    let b = Board::new(3, 2).unwrap();
    assert_eq!(b.size_x, 3);
    assert_eq!(b.size_y, 2);
    assert_eq!(b.filled, 0);
    for row in &b.board {
        for t in row {
            assert_eq!(*t, blank_tile());
        }
    }
    assert_eq!(b.count_owners(), [0, 0]);
    assert!(b.check_consistency().is_ok());
}

#[test]
fn owner_tick_alternates() {
    let mut o = Owner::Player1;
    o.tick();
    assert_eq!(o, Owner::Player2);
    o.tick();
    assert_eq!(o, Owner::Player1);
    let mut e = Owner::Empty;
    e.tick();
    assert_eq!(e, Owner::Empty);
}

#[test]
fn direction_index_and_iterator() {
    let dirs = Direction::iterator();
    assert_eq!(
        dirs,
        vec![Direction::North, Direction::South, Direction::East, Direction::West]
    );
    assert_eq!(Direction::index(0), Direction::North);
    assert_eq!(Direction::index(1), Direction::South);
    assert_eq!(Direction::index(2), Direction::East);
    assert_eq!(Direction::index(3), Direction::West);
    assert_eq!(Direction::index(7), Direction::North);
}

#[test]
fn direction_opposite_is_involutive() {
    for d in Direction::iterator() {
        assert_eq!(d.opposite().opposite(), d);
        assert_ne!(d.opposite(), d);
    }
}

#[test]
fn tile_resolve_claims_only_full_unclaimed() {
    let mut t = Tile { owner: Owner::Empty, north: true, south: true, west: true, east: true };
    assert!(t.resolve(Owner::Player1));
    assert_eq!(t.owner, Owner::Player1);
    // Already owned: no re-transition.
    assert!(!t.resolve(Owner::Player2));
    assert_eq!(t.owner, Owner::Player1);
    let mut u = Tile { owner: Owner::Empty, north: true, south: true, west: true, east: false };
    assert!(!u.resolve(Owner::Player2));
    assert_eq!(u.owner, Owner::Empty);
}

#[test]
fn almost_full_names_the_open_edge() {
    let t = Tile { owner: Owner::Empty, north: false, south: true, west: true, east: true };
    assert_eq!(t.almost_full(), Some(Direction::North));
    let u = Tile { owner: Owner::Empty, north: true, south: true, west: false, east: true };
    assert_eq!(u.almost_full(), Some(Direction::West));
    let two = Tile { owner: Owner::Empty, north: true, south: true, west: false, east: false };
    assert_eq!(two.almost_full(), None);
    let four = Tile { owner: Owner::Player1, north: true, south: true, west: true, east: true };
    assert_eq!(four.almost_full(), None);
}

// An interior edge is written on both bordering cells at once, and the two
// mirrored representations agree after every move.
#[test]
fn interior_edge_is_mirrored() {
    let mut b = Board::new(2, 1).unwrap();
    b.make_move(mv(0, 0, Direction::East, Owner::Player1));
    assert!(b.board[0][0].east);
    assert!(b.board[0][1].west);
    assert_eq!(b.adjacent_line(0, 0, Direction::East), Some(true));
    assert_eq!(b.adjacent_line(1, 0, Direction::West), Some(true));
    assert!(b.check_consistency().is_ok());
    assert!(!b.check_if_free(&mv(0, 0, Direction::East, Owner::Player2)));
    assert!(!b.check_if_free(&mv(1, 0, Direction::West, Owner::Player2)));
}

// Boundary edges have no neighbor: nothing is propagated and no
// out-of-bounds access happens.
#[test]
fn boundary_edge_has_no_mirror() {
    let mut b = Board::new(1, 1).unwrap();
    assert_eq!(b.adjacent_line(0, 0, Direction::North), None);
    assert_eq!(b.adjacent_line(0, 0, Direction::South), None);
    assert_eq!(b.adjacent_line(0, 0, Direction::East), None);
    assert_eq!(b.adjacent_line(0, 0, Direction::West), None);
    b.make_move(mv(0, 0, Direction::North, Owner::Player1));
    assert!(b.board[0][0].north);
    assert!(!b.board[0][0].south);
    assert!(!b.board[0][0].east);
    assert!(!b.board[0][0].west);
    assert!(b.check_consistency().is_ok());
}

#[test]
fn boundary_edges_of_larger_grid_stay_local() {
    let mut b = Board::new(3, 3).unwrap();
    b.make_move(mv(0, 0, Direction::North, Owner::Player1));
    b.make_move(mv(2, 2, Direction::South, Owner::Player2));
    b.make_move(mv(0, 1, Direction::West, Owner::Player1));
    b.make_move(mv(2, 1, Direction::East, Owner::Player2));
    // Only the named cells carry an edge.
    let mut drawn = 0;
    for row in &b.board {
        for t in row {
            drawn += [t.north, t.south, t.east, t.west].iter().filter(|x| **x).count();
        }
    }
    assert_eq!(drawn, 4);
    assert!(b.check_consistency().is_ok());
}

// The fill counter always equals the number of cells whose four edges are
// all drawn, and equals the two players' claim counts taken together.
#[test]
fn fill_counter_matches_full_cells() {
    let mut b = Board::new(2, 2).unwrap();
    let moves = [
        mv(0, 0, Direction::North, Owner::Player1),
        mv(0, 0, Direction::West, Owner::Player2),
        mv(0, 0, Direction::South, Owner::Player1),
        mv(0, 0, Direction::East, Owner::Player2),
        mv(1, 1, Direction::South, Owner::Player1),
        mv(1, 1, Direction::East, Owner::Player2),
    ];
    for m in moves {
        b.make_move(m);
        let full = b
            .board
            .iter()
            .flatten()
            .filter(|t| t.north && t.south && t.west && t.east)
            .count();
        let counts = b.count_owners();
        assert_eq!(b.filled as u64, counts[0] + counts[1]);
        assert_eq!(b.filled, full);
        assert!(b.check_consistency().is_ok());
    }
    // The four moves around cell (0,0) completed it; its completer was the
    // player of the fourth edge.
    assert_eq!(b.filled, 1);
    assert_eq!(b.board[0][0].owner, Owner::Player2);
}

// Once a cell's owner is set, further moves touching its edges change
// neither the owner nor the counter.
#[test]
fn owner_is_stable_under_redraws() {
    let mut b = Board::new(1, 1).unwrap();
    b.make_move(mv(0, 0, Direction::North, Owner::Player1));
    b.make_move(mv(0, 0, Direction::South, Owner::Player1));
    b.make_move(mv(0, 0, Direction::East, Owner::Player1));
    b.make_move(mv(0, 0, Direction::West, Owner::Player1));
    assert_eq!(b.board[0][0].owner, Owner::Player1);
    assert_eq!(b.filled, 1);
    // A double draw, as if the legality check had been skipped.
    b.make_move(mv(0, 0, Direction::West, Owner::Player2));
    b.make_move(mv(0, 0, Direction::North, Owner::Player2));
    assert_eq!(b.board[0][0].owner, Owner::Player1);
    assert_eq!(b.filled, 1);
    assert_eq!(b.count_owners(), [1, 0]);
}

// Drawing all four edges of one cell, in any order, yields exactly one
// ownership transition, attributed to the player of the completing move.
#[test]
fn fourth_edge_claims_for_its_player() {
    let orders = [
        [Direction::North, Direction::South, Direction::East, Direction::West],
        [Direction::West, Direction::East, Direction::South, Direction::North],
        [Direction::South, Direction::West, Direction::North, Direction::East],
    ];
    for order in orders {
        let mut b = Board::new(1, 1).unwrap();
        let mut player = Owner::Player1;
        let mut transitions = 0;
        let mut completer = Owner::Empty;
        for d in order {
            let before = b.filled;
            b.make_move(mv(0, 0, d, player));
            if b.filled > before {
                transitions += 1;
                completer = player;
            }
            player.tick();
        }
        assert_eq!(transitions, 1);
        // The fourth mover alternated from Player1: the completer is the
        // player of the fourth move.
        assert_eq!(completer, Owner::Player2);
        assert_eq!(b.board[0][0].owner, completer);
    }
}

// A skipped legality check: applying the same edge twice leaves the counter
// unchanged on the second application.
#[test]
fn double_draw_leaves_counter_unchanged() {
    let mut b = Board::new(1, 1).unwrap();
    b.make_move(mv(0, 0, Direction::North, Owner::Player1));
    assert_eq!(b.filled, 0);
    b.make_move(mv(0, 0, Direction::North, Owner::Player2));
    assert_eq!(b.filled, 0);
    b.make_move(mv(0, 0, Direction::South, Owner::Player1));
    b.make_move(mv(0, 0, Direction::East, Owner::Player1));
    b.make_move(mv(0, 0, Direction::West, Owner::Player1));
    assert_eq!(b.filled, 1);
    b.make_move(mv(0, 0, Direction::West, Owner::Player2));
    assert_eq!(b.filled, 1);
    assert_eq!(b.board[0][0].owner, Owner::Player1);
}

// A 1x1 grid fully drawn by one player: that player claims the single
// cell.
#[test]
fn single_cell_game() {
    let mut b = Board::new(1, 1).unwrap();
    for d in Direction::iterator() {
        assert!(b.check_if_free(&mv(0, 0, d, Owner::Player1)));
        b.make_move(mv(0, 0, d, Owner::Player1));
    }
    assert_eq!(b.board[0][0].owner, Owner::Player1);
    assert_eq!(b.filled, 1);
    assert_eq!(b.count_owners(), [1, 0]);
    assert!(b.check_consistency().is_ok());
}

// A 2x2 grid, all twelve edges drawn in a fixed order by alternating
// players: all four cells end claimed, the counter reads four, and the
// consistency check raises no violation.
#[test]
fn full_two_by_two_game() {
    let mut b = Board::new(2, 2).unwrap();
    let edges = [
        (0, 0, Direction::North),
        (1, 0, Direction::North),
        (0, 1, Direction::North),
        (1, 1, Direction::North),
        (0, 1, Direction::South),
        (1, 1, Direction::South),
        (0, 0, Direction::West),
        (1, 0, Direction::West),
        (0, 1, Direction::West),
        (1, 1, Direction::West),
        (1, 0, Direction::East),
        (1, 1, Direction::East),
    ];
    let mut player = Owner::Player1;
    for (x, y, d) in edges {
        assert!(b.check_if_free(&mv(x, y, d, player)));
        b.make_move(mv(x, y, d, player));
        assert!(b.check_consistency().is_ok());
        player.tick();
    }
    assert_eq!(b.filled, 4);
    for row in &b.board {
        for t in row {
            assert_ne!(t.owner, Owner::Empty);
        }
    }
    let counts = b.count_owners();
    assert_eq!(counts[0] + counts[1], 4);
}

// A board whose dual representation was broken by hand is caught by the
// checker, which names the offending cell and direction.
#[test]
fn consistency_violation_is_reported() {
    let mut east_only = blank_tile();
    east_only.east = true;
    let b = Board {
        size_x: 2,
        size_y: 1,
        board: vec![vec![east_only, blank_tile()]],
        filled: 0,
    };
    assert_eq!(
        b.check_consistency().unwrap_err(),
        BoardError::ConsistencyViolation { x: 0, y: 0, direction: Direction::East }
    );
}

#[test]
fn decide_winner_all_cases() {
    assert_eq!(decide_winner([3, 1]), Winner::Player1);
    assert_eq!(decide_winner([1, 3]), Winner::Player2);
    assert_eq!(decide_winner([2, 2]), Winner::Tie);
}

// The random player only ever proposes a legal move; on a board with a
// single open edge it must find exactly that edge.
#[test]
fn random_player_finds_the_open_edge() {
    let mut b = Board::new(1, 1).unwrap();
    b.make_move(mv(0, 0, Direction::North, Owner::Player1));
    b.make_move(mv(0, 0, Direction::South, Owner::Player2));
    b.make_move(mv(0, 0, Direction::East, Owner::Player1));
    let mut p = RandomPlayer::new();
    let m = p.make_move(&b, Owner::Player2);
    assert_eq!((m.x, m.y, m.direction, m.owner), (0, 0, Direction::West, Owner::Player2));
}

// The greedy pick takes the first almost-complete cell in row-major scan
// order, naming its one missing edge; with none anywhere it yields nothing.
#[test]
fn greedy_move_takes_first_in_row_major_order() {
    let mut b = Board::new(2, 2).unwrap();
    assert_eq!(greedy_move(&b, Owner::Player1), None);
    // Make both (0, 1) and (1, 0) almost complete: (1, 0) comes first in
    // row-major order.
    b.make_move(mv(0, 1, Direction::South, Owner::Player1));
    b.make_move(mv(0, 1, Direction::East, Owner::Player2));
    b.make_move(mv(0, 1, Direction::West, Owner::Player1));
    b.make_move(mv(1, 0, Direction::North, Owner::Player2));
    b.make_move(mv(1, 0, Direction::East, Owner::Player1));
    b.make_move(mv(1, 0, Direction::South, Owner::Player2));
    let m = greedy_move(&b, Owner::Player2).unwrap();
    assert_eq!((m.x, m.y, m.direction, m.owner), (1, 0, Direction::West, Owner::Player2));
}

// The greedy player claims an almost-complete cell when one exists.
#[test]
fn semi_random_player_goes_for_the_almost_full_cell() {
    let mut b = Board::new(2, 2).unwrap();
    b.make_move(mv(1, 1, Direction::North, Owner::Player1));
    b.make_move(mv(1, 1, Direction::South, Owner::Player2));
    b.make_move(mv(1, 1, Direction::East, Owner::Player1));
    let mut p = SemiRandomPlayer::new();
    let m = p.make_move(&b, Owner::Player2);
    assert_eq!((m.x, m.y, m.direction, m.owner), (1, 1, Direction::West, Owner::Player2));
    // And its move completes the cell for it.
    let mut b2 = b.clone();
    b2.make_move(m);
    assert_eq!(b2.board[1][1].owner, Owner::Player2);
    assert_eq!(b2.filled, 1);
}

// A full game driven by the two strategies always terminates with every
// cell claimed and a consistent board, whoever wins.
#[test]
fn strategies_play_a_full_game() {
    let mut b = Board::new(3, 3).unwrap();
    let mut random = RandomPlayer::new();
    let mut greedy = SemiRandomPlayer::new();
    let mut owner = Owner::Player1;
    let mut turn = 0;
    while b.filled < b.size_x * b.size_y {
        let m = if turn == 0 {
            random.make_move(&b, owner)
        } else {
            greedy.make_move(&b, owner)
        };
        assert!(b.check_if_free(&m));
        b.make_move(m);
        owner.tick();
        turn = (turn + 1) % 2;
    }
    assert_eq!(b.filled, 9);
    assert!(b.check_consistency().is_ok());
    let counts = b.count_owners();
    assert_eq!(counts[0] + counts[1], 9);
    match decide_winner(counts) {
        Winner::Player1 => assert!(counts[0] > counts[1]),
        Winner::Player2 => assert!(counts[1] > counts[0]),
        Winner::Tie => assert_eq!(counts[0], counts[1]),
    }
}
