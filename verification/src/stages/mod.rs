//! Pipeline stages: compression and authenticated encryption.
pub mod compress;
pub mod encrypt;

pub use compress::CompressStage;
pub use encrypt::EncryptStage;
