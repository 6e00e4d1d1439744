//! Content-addressable storage: digests, an in-memory object map, and the
//! decisions of a durable object store and of a chunked file store, each
//! proved against a model of the disk. Beside them, counters of the words of
//! a text and an index of its words by line.
//!
//! The stores touch no file system themselves. They say where an object
//! belongs and what to write, and they judge what a read returned; the
//! caller probes, reads and writes.

pub mod chunked;
pub mod chunked_disk;
pub mod digest;
pub mod durable;
pub mod layout;
pub mod manifest;
pub mod simple_store;
pub mod word_count;
pub mod word_index;
