//! Parsing of level descriptions and statistics over what they use.
pub mod level;
pub mod resolve;
pub mod stats;
pub mod text;
