//! Parser for a small financial-reporting DSL: nested groups ("spans") of
//! numeric account ranges, each group closed by a summary label.
//!
//! A document looks like this:
//!
//! ```text
//! Sales (
//!     3010..3010 => Webshop
//!     3010..4000 => Other sales
//! ) => Sum sales
//! ```
//!
//! [`Parser::parse`] turns such text into a forest of [`Span`] values, or a
//! formatted diagnostic that points at the first offending character.

pub mod ast;
pub mod chars;
pub mod diag;
pub mod document;
pub mod laws;
pub mod lines;
pub mod model;
pub mod nesting;
pub mod parser;
pub mod text;

pub use parser::Parser;
pub use ast::Range;
pub use ast::Span;
pub use ast::SumType;
pub use ast::SynErr;
