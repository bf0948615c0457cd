//! Wire protocol: message shapes and TCP framing.
pub mod codec;
pub mod messages;
