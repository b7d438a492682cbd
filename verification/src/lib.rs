//! A segmented HTTP download engine: byte ranges, the byte-range tree that
//! divides a download between connections, temp-file bookkeeping and the
//! decisions of the engine and its workers.

pub mod text;
pub mod byte_range;
pub mod byte_range_tree;
pub mod sort;
pub mod segment;
pub mod utils;
pub mod download;
pub mod engine;
pub mod message;
pub mod worker;
pub mod setting;
pub mod http;
pub mod redirect;
pub mod errors;
