pub mod message_parser;
pub mod peer_connection;
