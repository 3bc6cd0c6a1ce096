//! The written form of the log: how one operation becomes bytes and how a
//! run of bytes is read back as operations.

pub mod decimal;
pub mod literal;
pub mod quoted;
pub mod record;
pub mod stream;
