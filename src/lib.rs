//! A leecher-side BitTorrent download engine: wire framing, piece
//! availability and rarest-first scheduling, block assembly, piece
//! verification and the layout of pieces over the files of a torrent.

pub mod bitfield;
pub mod block_manager;
pub mod codec;
pub mod config;
pub mod handshake;
pub mod integrity;
pub mod layout;
pub mod message;
pub mod peer_state;
pub mod piece;
pub mod piece_manager;
pub mod session;
pub mod stats;
pub mod torrent;
pub mod tracker;
