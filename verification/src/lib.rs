//! A minimal BitTorrent client core: the bencode codec, the metainfo model,
//! tracker request and response handling, and the peer handshake.

pub mod decode;
pub mod digest;
pub mod encode;
pub mod error;
pub mod handshake;
pub mod json;
pub mod laws;
pub mod metainfo;
pub mod order;
pub mod syntax;
pub mod text;
pub mod tracker;
pub mod value;
