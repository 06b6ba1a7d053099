//! Building blocks of a small HTTP/1.1 and WebSocket server: wire codecs,
//! a path trie router and the per-connection protocol decisions.

pub mod body;
pub mod buffer;
pub mod codec;
pub mod common;
pub mod connection;
pub mod error;
pub mod http_codec;
pub mod path_trie;
pub mod router;
pub mod trie_laws;
pub mod upgrade;
pub mod websocket;

