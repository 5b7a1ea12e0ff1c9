//! Rules core of a no-limit Texas Hold'em engine: a verified 5-card hand
//! evaluator with a total comparison order, a best-hand selector over a
//! player's private cards plus the community board, and a betting-round
//! state machine that tracks stacks, bets, turn order, eliminations and
//! showdown payouts.

pub mod card;
pub mod counts;
pub mod hand;
pub mod board;
pub mod deck;
pub mod game;
pub mod player;

pub use card::{Card, CardError, Suit, Value};
pub use hand::{HandType, PlayerHand, PokerHand};
pub use board::Board;
pub use deck::Deck;
pub use game::{Action, Game, GameData, GameError, GameState, ObservableState, Round, Seat, Settings};
pub use player::Player;
