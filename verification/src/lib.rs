//! Reader for the Compound File Binary Format (OLE2 containers).
//!
//! A container is a small filesystem inside one flat file: fixed-size
//! sectors, allocation tables that chain them, and a directory of storages
//! and streams. This crate decodes a fully buffered container and proves,
//! with Verus, what each stage of the decoding returns.
//!
//! A container is opened in three stages, each of which fails with a typed
//! error on bytes that are no well-formed container:
//!
//! - `header` checks and decodes the first 512 bytes;
//! - `sat` collects the sectors of the allocation table and reads the
//!   allocation table, the mini allocation table and the chain of the
//!   directory, with `chain` to follow chains and `sector` to find sectors;
//! - `directory` decodes the records of the directory into entries (see
//!   `entry`), gives each entry the chain of its stream and holds the
//!   stream against the file, and builds the hierarchy (see `hierarchy`).
//!
//! `ole` puts the stages together in `Reader`. `stream` reads the bytes of
//! an entry of an opened container, and `iterator` goes through its
//! entries.

pub mod chain;
pub mod constants;
pub mod directory;
pub mod entry;
pub mod error;
pub mod header;
pub mod hierarchy;
pub mod iterator;
pub mod ole;
pub mod sat;
pub mod sector;
pub mod stream;
pub mod util;

pub use crate::entry::Entry;
pub use crate::entry::EntryType;
pub use crate::error::Error;
pub use crate::iterator::OLEIterator;
pub use crate::ole::Reader;
pub use crate::stream::EntrySlice;
