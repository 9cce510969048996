pub mod direction;
pub mod game;
pub mod laws;
pub mod model;
mod rng;

pub use direction::Direction;
pub use game::Game;
pub use game::NoFreeCellError;
