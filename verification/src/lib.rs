//! A recursive-descent parser for a JSON-like grammar.
//!
//! The entry point [`parser::parse_string`] turns a textual document into a
//! tagged [`model::Value`] tree, or into a line-annotated [`model::Error`]
//! when the document is malformed.  The grammar itself is written down as a
//! family of specification functions over the document's bytes in
//! [`grammar`], and every parsing routine is proved to follow them exactly.

pub mod grammar;
pub mod laws;
pub mod model;
pub mod parser;

pub use model::DictEntry;
pub use model::Error;
pub use model::ErrorType;
pub use model::Value;
pub use parser::parse_string;
pub use parser::Parser;
