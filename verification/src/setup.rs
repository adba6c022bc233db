//! Setting a game up.

use vstd::prelude::*;

verus! {

/// Something went wrong setting a game up.
#[derive(Debug, Clone, Copy, PartialEq, Eq, Structural)]
pub enum SetupError {
    /// No strategy card set matches the requested sources.
    NoStrategyCardSet,
    /// A game needs at least one player.
    NoPlayers,
}

/// LRR 83.2: two strategy cards each in a three or four player game, else one.
pub open spec fn spec_cards_per_player(player_count: nat) -> nat {
    if player_count == 3 || player_count == 4 { 2 } else { 1 }
}

/// LRR 83.2: two strategy cards each in a three or four player game, else one.
pub fn cards_per_player(player_count: usize) -> (cards: usize)
    ensures
        cards == spec_cards_per_player(player_count as nat),
{
    if player_count == 3 || player_count == 4 { 2 } else { 1 }
}

} // verus!
