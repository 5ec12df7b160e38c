# bittorrent

A small BitTorrent client. `src/` is a library verified with Verus:

- `utils`: big-endian integers, bitfield bytes, the tracker announce URL.
- `network::message_parser`: decoding and encoding peer wire messages.
- `network::peer_connection`: the handshake bytes.
- `peer`, `tracker`: compact peer lists from a tracker.
- `torrent_meta`: torrent metadata and its info hash.
- `storage::piece`: block-by-block download state of one piece.
- `torrent_handler`: the pieces of a torrent and the reaction to each peer message.

`app/` is the program around it: reading the torrent file, the HTTP
announce, TCP connections to peers and the loop that talks to them.
