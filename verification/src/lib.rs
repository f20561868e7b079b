//! Liar's Dice for two players: the rules of the game, the legal bids at each
//! point, the payoff of a challenge, and the key under which a player's
//! decision point is stored by a self-play trainer.

pub mod deal;
pub mod game;
pub mod info_set;
pub mod text;
