//! Reading and writing Named Binary Tag (NBT) documents.

pub mod compress;
pub mod tag;
pub mod wire;
pub mod encode;
pub mod decode;

pub use tag::{CompoundTag, Tag};
