//! Core of a real-time tactical combat simulation on a discrete 2D grid.
//!
//! Positions are kept in fixed point (thousandths of a cell) and time in
//! milliseconds, so that movement, timers and combat are exact integer
//! computations with machine-checked contracts.

pub mod geometry;
pub mod types;
pub mod gamecell;
pub mod unit;
pub mod world;
pub mod game;

pub use geometry::{Point, Rect, isqrt};
pub use gamecell::GameCell;
pub use unit::Unit;
pub use world::{Entity, World};
pub use game::{Camera, CurrentState, Direction, State, starting_army};
pub use types::{Color, Mode, Race, UnitKind};
