pub mod board;
pub mod player;
pub mod rules;
pub mod text;
