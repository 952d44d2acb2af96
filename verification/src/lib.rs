pub mod answer_laws;
pub mod api_logic;
pub mod bits;
pub mod board;
pub mod engine;
pub mod eval;
pub mod game;
pub mod laws;
pub mod minimax;
pub mod text;
pub mod web;
