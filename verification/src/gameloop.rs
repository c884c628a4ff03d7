use vstd::prelude::*;

verus! {

/// Outcome of a finished game.
#[derive(Clone, Copy, PartialEq, Eq, Structural, Debug)]
pub enum Winner {
    Player1,
    Player2,
    Tie,
}

/// Win determination from the two claim counts: the higher count wins,
/// equal counts is a tie.
pub fn decide_winner(counts: [u64; 2]) -> (w: Winner)
    ensures
        counts[0] == counts[1] ==> w == Winner::Tie,
        counts[0] > counts[1] ==> w == Winner::Player1,
        counts[0] < counts[1] ==> w == Winner::Player2,
{
    if counts[0] == counts[1] {
        Winner::Tie
    } else if counts[0] > counts[1] {
        Winner::Player1
    } else {
        Winner::Player2
    }
}

} // verus!
