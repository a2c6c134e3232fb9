//! Wire representation of domain names: flat decoding and encoding of a
//! name's label sequence, and a compression-aware decoder that follows
//! pointer back-references inside a larger message.

pub mod utf8;
pub mod wire;
pub mod name;
pub mod decoder;
