//! sermuxd: the core of a serial port multiplexer daemon.
//!
//! One daemon owns a serial port; any number of clients connect to it. All of
//! them receive what the port emits ([`serial`], [`replay`], [`feed`]), and one
//! at a time may write to it ([`arbiter`], [`control`], [`handshake`]); what that
//! lock is and what holds of it stands in [`ownership`] and [`guarantees`]. The
//! modules here hold the rules of the daemon, as functions from a state and an
//! event to the next state and an action; sockets, files, tasks and the choice of
//! fresh tokens are left to the program around them.
pub mod arbiter;
pub mod client;
pub mod control;
pub mod feed;
pub mod guarantees;
pub mod handshake;
pub mod link;
pub mod ownership;
pub mod payload;
pub mod replay;
pub mod serial;
pub mod text;
