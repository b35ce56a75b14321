//! Letter-position guessing games: the match-count relation over a corpus
//! of equal-length words, the complete guess/feedback decision tree with
//! worst-case costs, and a cursor that walks it turn by turn.

pub mod decision;
pub mod error;
pub mod matrix;
pub mod metric;
pub mod solver;
pub mod tree;
pub mod utils;
pub mod words;

pub use error::Error;
pub use matrix::Matrix;
pub use metric::Metric;
pub use solver::Solver;
pub use tree::{Answer, Guess, Kind, Node, Tree};
pub use utils::{get_coincidence, Groups, GroupsStruct};
pub use words::Words;
