//! A format-preserving TOML toolkit: a total lexer, a lossless syntax tree, an
//! error-recovering parser and a formatter that only touches layout.
//!
//! A TOML document can be formatted directly using the [formatter::format] function:
//!
//! ```
//! use oxc_toml::{formatter, Options};
//!
//! const SOURCE: &str = "value=1\n[table]\nstring='some string'";
//!
//! let formatted = formatter::format(SOURCE, Options::default());
//! ```

pub mod formatter;
pub mod grammar;
pub mod lexer;
pub mod literal;
pub mod parser;
pub mod scan;
pub mod stability;
pub mod syntax;
pub mod text;
pub mod tree;
pub mod util;

pub use formatter::Options;
pub use parser::parse;
