//! The snakes: move-choosing strategies built on the game logic.
pub mod deadline;
pub mod simple;
pub mod spaceheater;
pub mod spaceheater2;
pub mod spaceheater3;
pub mod suspicious_salami;
