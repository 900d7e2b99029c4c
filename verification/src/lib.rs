pub mod connection;
pub mod ecs;
pub mod events;
pub mod game;
pub mod headers;
pub mod lobby;
pub mod proto;
pub mod room;
pub mod text;
