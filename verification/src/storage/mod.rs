pub mod buffer;
pub mod cleanup;
pub mod codec;
pub mod crc;
pub mod frame;
pub mod recovery;

pub use buffer::MmapBuffer;
pub use frame::{LogFrame, LogLevel};
