//! The names a `serde_yaml` user reaches for, bound to this crate's
//! own types: its error type is this crate's [`Error`], with the same
//! 1-based `location().line()` / `.column()` shape.
pub use crate::error::{Error, Location};
