//! A line and frame reassembler for a duplex byte stream, with a table of
//! named actions that the reassembled lines are dispatched through.
//!
//! The stream carries newline-terminated text commands, zero bytes as padding,
//! and binary segments enclosed between two occurrences of a four-byte
//! sentinel. Text becomes one line per command; a binary segment becomes one
//! line holding its base64 text. Each line is looked up in the action table,
//! and the action found may write to the outbound sink and ask for entries of
//! the table to be added or removed.
//!
//! - [`actions`] holds the table, the handlers' trait and the dispatch of a line.
//! - [`framing`] says what a buffer of bytes holds, and takes the lines out of it.
//! - [`serialcomunicator`] holds the processor, which takes chunk after chunk,
//!   and the classification of a chunk.
//! - [`stream`] proves what holds of whole streams, however they are cut.
//! - [`keystream`] derives the block that the cipher commands send from.
//! - [`encoding`] holds the calls into other crates that the framing needs.

pub mod actions;
pub mod encoding;
pub mod framing;
pub mod keystream;
pub mod serialcomunicator;
pub mod stream;
