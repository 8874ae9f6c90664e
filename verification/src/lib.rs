//! Exact backward-induction solver core for the Yahtzee dice game.
//!
//! The verified library covers the dice-multiset algebra, the category
//! scoring rules, the bitset of used categories, the encoding of game
//! states, and the precomputed keep/roll transition table, all in exact
//! integers. The floating-point expected-value loop lives outside the
//! library and consumes these values.

pub mod category;
pub mod dice;
pub mod turn;
