//! A model of Klondike solitaire and a backtracking solver for it.
//!
//! The crate is layered from the cards up: [`card`] holds suits, ranks and
//! cards; [`ids`] names the piles of a table; [`stack`] is one pile with the
//! rules that say what it accepts; [`deck`] builds a shuffled deck; [`table`]
//! is the whole layout with the primitives that move cards; [`play`] lists
//! the plays that a table allows; [`weight`] and [`order`] rank them;
//! [`solver`] searches for a winning line of play; [`player`] moves the
//! cursors of someone who plays by hand; [`laws`] states what holds of all
//! of it.
//!
//! Contracts speak of a table through its view, [`TableView`]: the cards of
//! each pile as a sequence, and the two cursors. Every primitive says which
//! view it leaves behind, and the laws are proved of those views.

pub mod card;
pub mod deck;
pub mod ids;
pub mod laws;
pub mod order;
pub mod play;
pub mod player;
pub mod solver;
pub mod stack;
pub mod table;
pub mod weight;

pub use card::{Card, Color, Rank, Suit};
pub use deck::make_deck;
pub use ids::{Source, StackId, StackType};
pub use play::{
    generate_plays, ActiveCardIterator, CardPlayIterator, Play, PlayIterator, PlayIteratorPhase,
};
pub use player::Player;
pub use solver::{make_move, Progress, SearchNode, Solver, ITERATION_LIMIT};
pub use stack::Stack;
pub use table::{Table, TableView};
pub use weight::WeightedPlay;
