pub mod components;
pub mod game_state;
