pub mod player;
pub mod radix;
pub mod state;
pub mod triangle;
