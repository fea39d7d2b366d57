//! Turn-resolution engine for the "24" card game.
//!
//! Four cards are dealt to a player, who submits an arithmetic expression
//! that must use each dealt value exactly once and evaluate to 24.
//! The crate covers the deck and stack lifecycle (dealing, reclaiming,
//! reshuffling card ids across the hidden, visible, player and accumulation
//! piles), the expression parser and evaluator, and the card-usage validator
//! that decides whether a submitted answer wins the turn.

pub mod answer_analizer;
pub mod answer_numbers;
pub mod common;
pub mod core_cards;
pub mod validator;
