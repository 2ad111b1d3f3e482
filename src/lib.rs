//! A dealer for hidden-role games: a room coordinator that gathers players
//! into rooms, and an assignment engine that deals roles once a room is full
//! and tells each player what their role lets them see.
pub mod game;
pub mod server;
pub mod session;
