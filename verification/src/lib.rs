//! Shortest-route planning for a robot on a rectangular board of cells.
//!
//! The board is a grid of [`Square`]s, the robot is a [`PlayerState`], and
//! the search engine [`BFS`] answers, for a target cell, with the fewest
//! [`Action`]s that bring the robot there. Every function carries a contract
//! that Verus proves.

pub mod action;
pub mod answer;
pub mod board;
pub mod booster;
pub mod encode;
pub mod movement;
pub mod player;
pub mod reach;
pub mod route;
pub mod square;

pub use action::Action;
pub use booster::Booster;
pub use encode::actions_to_string;
pub use movement::apply_move;
pub use player::PlayerState;
pub use reach::BFS;
pub use square::Square;
