//! Static security checks for Arbitrum Stylus contracts.
//!
//! This is a heuristic tool, not an audit. It reads source and recognises
//! patterns; a clean run means only that these particular rules found nothing
//! to say. What is proved here is that each rule reports exactly the patterns
//! that its contract names, in the order they stand in the source.

pub mod config;
pub mod declarations;
pub mod discover;
pub mod finding;
pub mod laws;
pub mod lists;
pub mod model;
pub mod order;
pub mod path;
pub mod promises;
pub mod render;
pub mod rules;
pub mod run;
pub mod syntax;
pub mod text;
