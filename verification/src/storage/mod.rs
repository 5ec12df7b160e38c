pub mod piece;
