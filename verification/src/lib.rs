//! Build a process tree from a stream of start/exit events without
//! ever holding the full input in memory.
//!
//! Lines are parsed one at a time into [`ProcessEvent`]s
//! ([`ProcessEvent::parse_line`]); [`EventReader`] decides, line by
//! line, which event (or error) a stream yields; and [`ProcessTree`]
//! applies the events to a flat arena of nodes, whose abstract state is
//! a [`forest::Forest`].
pub mod event;
pub mod forest;
pub mod laws;
pub mod reader;
pub mod text;
pub mod tree;

pub use event::{ParseError, ProcessEvent};
pub use reader::{EventReader, LineRead, ReadError, ReaderStep};
pub use tree::{ProcessNode, ProcessTree};
