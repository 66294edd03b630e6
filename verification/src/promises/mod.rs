//! What is promised of the whole, each promise said in terms of what goes in and
//! what comes out, and apart from how it is worked out.
//!
//! The words that the promises are said in are defined here, on the plain tree
//! and on plain text, and nowhere else.

pub mod access;
pub mod calls;
pub mod declarations;
pub mod model;
pub mod numbers;
pub mod output;
pub mod project;
pub mod results;
pub mod runs;
pub mod source;
pub mod storage;
pub mod surface;
pub mod traps;
pub mod words;
