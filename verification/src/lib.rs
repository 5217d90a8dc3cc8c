//! A YAML 1.2 toolkit: a scanner and event parser, values built from
//! the events and queried by path, base64 for `!!binary`, source
//! locations and errors, structural paths, parser configuration,
//! output-style wrappers, and the lossless syntax tree with its
//! comment, anchor and edit operations.
use vstd::prelude::*;

pub mod anchors;
pub mod base64;
pub mod borrowed;
pub mod cli;
pub mod compat;
pub mod config;
pub mod cst;
pub mod error;
pub mod fmt;
pub mod mcp;
pub mod parallel;
pub mod parser;
pub mod path;
pub mod scalar;
pub mod text;

verus! {
} // verus!
