//! Extraction of tables from XML element trees by compact path patterns.
//!
//! A pattern such as `book/chapters/chapter/{title,paragraphs/paragraph}` is
//! compiled into a tree of wildcard segments; matching it against a document
//! yields one row per combination of matches of sibling segments.

pub mod compile;
pub mod extract;
pub mod pattern;
pub mod progress;
pub mod table;
pub mod traverse;
pub mod wildcard;
