//! A flattening-and-indexing engine for heterogeneous record trees.
//!
//! A tree of records (each record type declaring, through a `TreeSpec`,
//! which of its fields form its unique key, which field is its title, and
//! which fields are searchable) is flattened into an immutable table of
//! `FlatNode`s with parent/child key linkage, together with a search
//! index from `(field, normalized value)` to node keys.  A built
//! `Snapshot` answers key lookups, child and ancestor walks, and exact
//! or substring searches without re-walking the tree.

pub mod flatten;
pub mod index;
pub mod keys;
pub mod laws;
pub mod node_trait;
pub mod record;
pub mod registry;
pub mod snapshot;

pub use flatten::{FlatNode, FlattenError};
pub use index::{IndexEntry, SearchMode};
pub use node_trait::{BoundNode, FlattenTreeNodeExt, SimpleFastTreeNode};
pub use record::{FieldValue, Record};
pub use registry::{ConfigError, Registry, TreeSpec};
pub use snapshot::{BuildError, Snapshot};
