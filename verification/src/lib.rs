//! A verified JSON5 parser: it turns a complete text buffer into a canonical
//! value tree, resolving comments, trailing commas, bare identifier keys,
//! single- and double-quoted strings with escape sequences, and the decimal
//! and hexadecimal numeric literal forms.
//!
//! The crate is laid out in three layers. `grammar` states the whole grammar
//! and its value reduction as mathematical functions over character
//! sequences; `parser` is the executable recursive-descent parser, proved to
//! return exactly what those functions say; `value` is the canonical value
//! model with its views and well-formedness. `laws` holds properties proved
//! once for all inputs. Numbers keep their exact digits and scale — the
//! host decides its own numeric representation when it projects the tree.

pub mod grammar;
pub mod laws;
pub mod parser;
pub mod value;

pub use parser::parse;
pub use parser::ParseError;
pub use value::Number;
pub use value::NumberForm;
pub use value::NumberFormView;
pub use value::NumberView;
pub use value::Value;
pub use value::ValueView;
