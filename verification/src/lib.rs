//! A compiler for sketch notation: an indentation-based plain-text format
//! that describes a hierarchy of files and folders.
//!
//! The scanner turns each non-blank line into a [`LineToken`]; the builder
//! turns the token sequence into a forest of [`SketchNode`] trees.

pub mod builder;
pub mod laws;
pub mod node;
pub mod text;
pub mod token;

pub use builder::{build, parse_sketch};
pub use node::{SketchNode, StructuralError};
pub use token::{tokenize_sketch, LineToken};
