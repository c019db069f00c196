//! Verified core of a semantic file search tool: the messages that the
//! command-line client and the search daemon exchange, their framing on the
//! socket, the path and text handling of both sides, and the decisions that
//! drive the daemon and the interactive result browser.

pub mod text;
pub mod message;
pub mod frame;
pub mod path;
pub mod cli;
pub mod daemon;
pub mod highlight;
pub mod interactive;
