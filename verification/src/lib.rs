//! A small BitTorrent client library: torrent metadata, tracker responses,
//! the peer wire protocol and piece bookkeeping.

pub mod utils;
pub mod network;
pub mod storage;
pub mod peer;
pub mod tracker;
pub mod torrent_meta;
pub mod torrent_handler;
