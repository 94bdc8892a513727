//! Verified core of a password generator: the compact format language that
//! describes a password ("W4s2w3d5"), the configuration built from the
//! command line, and the generator that fills each element with random
//! letters, digits and symbols.

pub mod text;
pub mod config;
pub mod generator;
pub mod element_list;
