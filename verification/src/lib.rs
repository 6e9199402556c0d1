use vstd::prelude::*;

pub mod buildlog;
pub mod depfile;
pub mod error;
pub mod exec;
pub mod expand;
pub mod files;
pub mod fxmap;
pub mod graph;
pub mod lexer;
pub mod options;
pub mod parse;
pub mod plan;
pub mod strutil;

pub use error::{KageError, Result};
pub use exec::BuildResult;
pub use options::Options;

verus! {

} // verus!
