//! Reflection-based inspection and comparison of structured values.
//!
//! A reflected value is held as a `Node`: its type and its content. An
//! inspection walks a value depth first and yields every sub-object with the
//! path (`$`, then field names, list indices and map keys) that leads to it.
//! `Diff` compares two values of one type side by side; `ShapeDiff` compares
//! two values of any types path by path.
pub mod diff;
pub mod inspect;
pub mod node;
pub mod path;
pub mod path_map;

pub use diff::{DiffType, Diff, FacetDiff, Modification, ModificationPeek, ShapeDiff};
pub use inspect::{FacetInspect, FacetIterator};
pub use node::{Node, Scalar, TypeInfo, Value};
pub use path::FacetPath;
pub use path_map::PathMap;
