//! Parsing of commit messages written in the Conventional Commits format.

pub mod whitespace;
pub mod error;
pub mod grammar;
pub mod scan;
pub mod commit;
pub mod laws;

pub use commit::{parse, Commit};
pub use error::{Error, InvalidElement, Result};

