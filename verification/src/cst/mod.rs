//! The lossless syntax tree: syntax kinds, green nodes, the tree
//! builder over the scanner's recorded streams, and the source-level
//! helpers behind path-targeted edits.
pub mod anchor;
pub mod annotated;
pub mod builder;
pub mod document;
pub mod edit;
pub mod entry;
pub mod green;
pub mod locate;
pub mod parsed;
pub mod siblings;
pub mod splice;
pub mod syntax;

pub use green::{GreenChild, GreenNode};
pub use syntax::SyntaxKind;
pub use parsed::{parse_document, Document};
