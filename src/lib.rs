//! Command-line argument resolution with three layers: tokens given on the
//! command line, a configuration tree, and per-argument defaults, in that order
//! of precedence.
//!
//! `parser` holds the tokenizer, `matches` the resolved mapping and the merge
//! engine, `command` the program-level builder, and `laws` and `tree` the
//! proved properties that relate them.

pub mod value;
pub mod text;
pub mod entries;
pub mod error;
pub mod arg;
pub mod matches;
pub mod parser;
pub mod laws;
pub mod tree;
pub mod command;

pub use arg::{Arg, ArgType, arg, pos};
pub use command::{Args, args};
pub use error::{Error, Result};
pub use matches::Matches;
pub use parser::ArgParser;
pub use value::Value;
