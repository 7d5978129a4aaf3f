//! Parsing: the token source, the event log and its markers, the grammar, and
//! the sink that replays the log into a tree.
pub mod chain;
pub mod determined;
pub mod event;
pub mod grammar;
pub mod marker;
pub mod nesting;
pub mod outcome;
pub mod parse_error;
pub mod parser;
pub mod resolve;
pub mod sink;
pub mod source;

pub use event::Event;
pub use marker::{CompletedMarker, Marker};
pub use parse_error::ParseError;
pub use parser::Parser;
pub use sink::Sink;
pub use source::Source;
