//! A solver for a FreeCell-style solitaire variant in which both column
//! stacking and foundation promotion follow the same same-suit,
//! consecutive-rank adjacency rule.
//!
//! The board model (cards, tableau columns, free cells, foundations),
//! permutation-invariant canonicalization, automatic foundation promotion,
//! and the depth-first backtracking search are all verified: every solution
//! the solver returns is proved to transform the starting board into a
//! solved board, and on a deal whose cards are distinct a no-solution
//! verdict is proved to mean that no winning move sequence exists.

pub mod board;
pub mod canon;
pub mod card;
pub mod confluence;
pub mod equivalence;
pub mod solver;
