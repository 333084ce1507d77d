//! Parser and evaluator for label selectors in the style `env = prod,
//! tier in (web, api), !deprecated`.
//!
//! A selector is a comma-separated list of requirements; each requirement
//! checks one key of a label map for existence, equality, inequality or
//! set membership, optionally negated.  Parsing and evaluation happen in a
//! single left-to-right scan; the result is the conjunction of all
//! requirements, or the first scanning error with its byte offset.

mod cursor;
mod labels;
mod parseerror;
mod parser;
mod properties;

pub use cursor::Cursor;
pub use labels::LabelMap;
pub use parseerror::ParseError;
pub use parser::{parse, parse_key, parse_operator, Operator};
