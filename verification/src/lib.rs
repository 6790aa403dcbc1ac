//! A verified core for searching 52-card orderings in which the dealer
//! wins a Texas Hold'em showdown from every cyclic cut: the card model,
//! the seven-card hand evaluator and its precomputed table, deck
//! permutation operators, the deal-and-score oracle, and the verified
//! kernels of the metaheuristic search strategies.

pub mod cards;
pub mod deck;
pub mod game;
pub mod hands;
pub mod precompute;
pub mod rng;
pub mod search;
