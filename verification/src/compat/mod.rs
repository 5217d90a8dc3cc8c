//! Compatibility names for code moving from other YAML libraries.
pub mod serde_yaml;
