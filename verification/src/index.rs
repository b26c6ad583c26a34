pub mod archive;
pub mod bloom;
pub mod bm25;
pub mod files;
pub mod frame;
pub mod minhash;
pub mod store;
