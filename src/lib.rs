//! Reads BitTorrent metadata (`.torrent` files): a bencode codec whose
//! encoder writes the canonical form, a mapping from decoded values to typed
//! torrent metadata, and the info hash that identifies a torrent's swarm.

pub mod canonical;
pub mod decode;
pub mod digits;
pub mod encode;
pub mod error;
pub mod fields;
pub mod hash;
pub mod hex;
pub mod laws;
pub mod torrent;
pub mod value;

pub use decode::decode;
pub use encode::encode;
pub use error::{Error, Result};
pub use hex::to_hex;
pub use torrent::{split_pieces, File, Info, Torrent};
pub use value::{Bencode, Value};
