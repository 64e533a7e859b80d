//! The server's rules, apart from its sockets.

pub mod lobby;
pub mod rounds;
pub mod movement;
pub mod clock;
pub mod snapshot;
pub mod laws;
