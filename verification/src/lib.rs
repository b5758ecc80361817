//! Load and use environment variables from `.env` files.
//!
//! The library parses `.env` content with variable substitution (`$VAR`,
//! `${VAR}`, `${VAR:-default}`), three quote styles and multi-line values,
//! and decides what loading it does to an environment. Reading files and
//! the process environment is left to the caller, who hands the library
//! the text and an [`Environment`].
//!
//! - [`Dotenv`] and [`dotenv::Iter`]: parsed content and its entries.
//! - [`reader::Dotenv`] and [`iter::Iter`]: line-by-line reading with the
//!   line parser of [`line`].
//! - [`find`]: the search for a file in a directory and its ancestors.

pub mod dotenv;
pub mod error;
pub mod errors;
pub mod find;
pub mod iter;
pub mod laws;
pub mod line;
pub mod parse;
pub mod parse_laws;
pub mod quoted;
pub mod reader;
pub mod text;
pub mod vars;

pub use crate::dotenv::Dotenv;
pub use crate::errors::Error;
pub use crate::vars::Environment;
