//! Chunk-level codec for PNG files: validated type codes, checksummed chunks,
//! and the container that frames them behind the PNG signature.

pub mod checksum;
pub mod chunk;
pub mod chunk_type;
pub mod endian;
pub mod error;
pub mod message;
pub mod png;
pub mod record;
mod text;

pub use error::Error;
