pub mod counting;
pub mod distance;
pub mod game_state;
pub mod move_execution;
pub mod move_validation;
pub mod scoring;
pub mod strategy;
pub mod types;
