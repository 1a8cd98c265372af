//! Fetches, decodes and shows the daily Squaredle puzzle. The library holds the
//! logic: the cipher and word-list decoding, the reading of the puzzle out of the
//! site's configuration script, and the layout of the puzzle for the terminal and
//! for JSON.

pub mod cipher;
pub mod classes;
pub mod cli;
pub mod display;
pub mod fetcher;
pub mod order;
pub mod render;
pub mod scan;
pub mod text;

