//! An interval timer for alternating session and break phases, and the block
//! glyphs that show the remaining time.

pub mod config;
pub mod font;
pub mod output;
pub mod text;
pub mod time;
