use vstd::prelude::*;

pub mod chunk;
pub mod cli;
pub mod glob;
pub mod index;
pub mod order;
pub mod path;
pub mod search;
pub mod serve;
pub mod single;
pub mod syntax;
pub mod text;

pub use search::pipeline::{SearchPipeline, SearchResult};

verus! {

/// What can go wrong.
#[derive(Debug)]
pub enum RpgrepError {
    /// Reading or writing failed.
    Io(String),
    /// The index cannot be built.
    Index(String),
    /// An index file cannot be written or read.
    Persist(PersistError),
}

/// Why an index file cannot be written or read.
#[derive(Debug)]
pub enum PersistError {
    /// The bytes of the file are not an index.
    Frame(index::frame::FrameError),
    /// The payload cannot be encoded or decoded.
    Codec(String),
}

} // verus!
