//! The core of a hot-potato game server: bombs circulate among the seated
//! players, and whoever holds one passes it on for points.
//!
//! - [`packet`]: the text frames on the wire, read and written.
//! - [`ring`]: the seats in seating order, with wrap-around neighbours.
//! - [`scoreboard`]: the players' records and the rank-ordered board.
//! - [`names`]: display names and colours for new players.
//! - [`coordinator`]: the state of a match and what each event makes of it.
//! - [`trace`]: what holds of a match after any run of events.
//! - [`session`]: one client's handshake and duplex loop, event by event.
//! - [`text`]: decimal numbers and separators in sequences of characters.
//!
//! The coordinator and the session are state machines: each event is a call
//! that changes the state and returns, in order, what is to be done. Whoever
//! runs them owns the sockets, channels and clock.

pub mod coordinator;
pub mod names;
pub mod packet;
pub mod ring;
pub mod scoreboard;
pub mod session;
pub mod text;
pub mod trace;
