//! Domain names used by the engine. A new purpose gets a new name, never an existing one.

use vstd::prelude::*;

verus! {

/// Combat, bombardment, space cannon: every die.
pub const DICE: &'static str = "dice";

/// Shuffling the objective deck.
pub const OBJECTIVES: &'static str = "deck:objectives";

/// Shuffling the agenda deck.
pub const AGENDAS: &'static str = "deck:agendas";

/// Shuffling the action card deck.
pub const ACTION_CARDS: &'static str = "deck:action_cards";

/// Shuffling the secret objective deck.
pub const SECRETS: &'static str = "deck:secrets";

/// Shuffling the relic deck.
pub const RELICS: &'static str = "deck:relics";

/// Shuffling the exploration decks.
pub const EXPLORATION: &'static str = "deck:exploration";

/// Selecting map tiles.
pub const MAP: &'static str = "map";

} // verus!
