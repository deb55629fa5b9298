//! Decision-making core for the corner-swapping board game Ugolki: positions as
//! bit masks, move generation with chained jumps, a static evaluation, and a
//! depth-limited search that chooses a move.

pub mod board;
pub mod color;
pub mod coordinate;
pub mod evaluate;
pub mod folds;
pub mod forced;
pub mod mask;
pub mod moves;
pub mod outcome;
pub mod search;
pub mod sequences;
pub mod sorting;
pub mod text;
pub mod turn;

pub use board::BoardPosition;
pub use color::PieceColor;
pub use coordinate::{Direction, Position};
pub use forced::Forecast;
pub use mask::PositionMask;
pub use outcome::EvaluationResult;
pub use search::{SearchState, TurnSearcher};
pub use turn::Turn;
