//! Conversion of a parsed, dynamically typed document tree into a canonical,
//! serialization-ready value tree.
//!
//! The source tree ([`YamlNode`]) is what an external parser produces:
//! scalars, sequences, ordered maps, aliases, nulls and an invalid sentinel.
//! The canonical tree ([`YamlSerialize`]) is structurally isomorphic, keeps
//! real numbers as their lexical text so that the whole type carries a total
//! order, equality and a hash, and holds its maps as order-preserving maps
//! with unique keys. [`convert`] walks the source tree depth first and is
//! total: it never fails and never drops, reorders or duplicates anything,
//! except that a repeated map key keeps its place and takes the last value.

pub mod model;
pub mod source;
pub mod value;
pub mod convert;
pub mod filename;

pub use model::NodeModel;
pub use source::YamlNode;
pub use value::{value_eq, OrderedMap, YamlSerialize};
pub use convert::{convert, convert_node};
pub use filename::ron_filename;
