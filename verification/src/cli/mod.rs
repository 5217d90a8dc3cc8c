//! Command-line front ends: argument parsing for the `noyafmt`
//! formatter and the `noyavalidate` checker.
pub mod noyafmt;
pub mod noyavalidate;
