//! Design-by-contract front end for Rust: a source rewrite that turns labeled
//! contract blocks into auxiliary declarations, and machinery that captures a
//! build tool's compiler invocation, persists it, and replays it.

pub mod artifact;
pub mod capture;
pub mod cli;
pub mod replay;
pub mod scanner;
pub mod text;
pub mod transform;
