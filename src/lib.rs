//! Reading and writing application-defined ancillary chunks in PNG files.
pub mod chunk;
pub mod decode;
pub mod encode;

pub use chunk::{ByteReader, Chunk, ChunkType};
pub use decode::Decoder;
pub use encode::Encoder;
