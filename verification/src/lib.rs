//! Conversion between a configuration value tree and a directory tree.
//!
//! A collection becomes a directory and a scalar becomes a file that holds
//! the scalar's literal. [`explode`] turns a value tree into a directory
//! tree, [`implode`] reads a directory tree back into a value tree, and
//! [`round_trip`] says which value trees come back unchanged.
//!
//! The trees live in memory, as [`value::Value`] and [`node::Node`]: reading
//! a directory tree from disk and writing one to it is left to the caller.
//! Every function is verified against a contract over the models of these
//! types, except the calls into other crates, which are gathered in
//! [`foreign`].

pub mod cli;
pub mod error;
pub mod explode;
pub mod foreign;
pub mod implode;
pub mod listing;
pub mod literal;
pub mod node;
pub mod outcome;
pub mod round_trip;
pub mod text;
pub mod value;
