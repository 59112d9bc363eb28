//! The regional game-client engine: encrypted MessagePack framing over
//! AES-128-CBC, order-preserving payload decoding, restoration of packed
//! master-data bundles, version tracking, credential-token identity
//! extraction, and the session-pool, retry and scheduling decisions of the
//! proxy service. The embedding application supplies the I/O; everything
//! here is specified and verified.

pub mod account;
pub mod codec;
pub mod config;
pub mod engine;
pub mod errors;
pub mod ops;
pub mod restore;
pub mod tokens;
pub mod trusted;
pub mod value;
pub mod version;

pub use codec::{pkcs7_pad, pkcs7_unpad, SekaiCryptor};
pub use errors::{AppError, SekaiHttpStatus};
pub use ops::ServerRegion;
