//! Durable persistence: file framing and the write-ahead log.

pub mod bytes;
pub mod frame;
pub mod wal;

pub use frame::encode_frame;
pub use frame::parse_framed;
pub use frame::FileKind;
pub use frame::Frame;
