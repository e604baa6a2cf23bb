//! The read-side reactor of a sharded TCP server, as a verified state machine.
//!
//! A reactor owns a table of connections, rebuilds length-prefixed messages
//! from the bytes its sockets deliver, and answers every event with the list
//! of actions that its driver has to carry out on the poll instance, on the
//! sockets and on the channels to its sibling threads.

pub mod command;
pub mod connection;
pub mod event;
pub mod framing;
pub mod lifecycle;
pub mod model;
pub mod reader;
pub mod table;
