//! The polymorphic node interface: a record bound to the registry that
//! holds its type's `TreeSpec` exposes a stable hashmap key and a
//! display title, uniformly across record types.

use vstd::prelude::*;
use crate::flatten::{record_title, title_of};
use crate::keys::{key_of, record_key};
use crate::record::Record;
use crate::registry::{record_config_error, Registry};

verus! {

/// A record coupled with the registry holding its type's declaration:
/// the uniform node the engine and its callers consume.
pub struct BoundNode<'a> {
    pub record: &'a Record,
    pub registry: &'a Registry,
}

/// The minimal tree node interface: anything that can derive its own
/// stable hashmap key.
pub trait SimpleFastTreeNode {
    /// Whether the node is configured well enough to derive a key.
    spec fn key_ready(&self) -> bool;

    /// The key the node derives.
    spec fn key_spec(&self) -> Seq<char>;

    /// Derives the node's hashmap key: a pure function of the node's
    /// declared key field values.
    fn generate_tree_node_hashmap_key(&self) -> (key: String)
        requires
            self.key_ready(),
        ensures
            key@ == self.key_spec(),
    ;
}

/// The extended tree node interface: a derived key plus the display
/// title declared by the node's type.
pub trait FlattenTreeNodeExt {
    /// Whether the node is configured well enough to answer.
    spec fn node_ready(&self) -> bool;

    /// The key the node derives.
    spec fn ext_key_spec(&self) -> Seq<char>;

    /// The node's display title.
    spec fn title_spec(&self) -> Seq<char>;

    /// Derives the node's hashmap key.
    fn generate_tree_node_hashmap_key(&self) -> (key: String)
        requires
            self.node_ready(),
        ensures
            key@ == self.ext_key_spec(),
    ;

    /// Reads the node's display title.
    fn get_title(&self) -> (title: String)
        requires
            self.node_ready(),
        ensures
            title@ == self.title_spec(),
    ;
}

impl<'a> SimpleFastTreeNode for BoundNode<'a> {
    open spec fn key_ready(&self) -> bool {
        record_config_error(*self.record, *self.registry) is None
    }

    open spec fn key_spec(&self) -> Seq<char> {
        key_of(*self.record, *self.registry)
    }

    fn generate_tree_node_hashmap_key(&self) -> (key: String) {
        record_key(self.record, self.registry)
    }
}

impl<'a> FlattenTreeNodeExt for BoundNode<'a> {
    open spec fn node_ready(&self) -> bool {
        record_config_error(*self.record, *self.registry) is None
    }

    open spec fn ext_key_spec(&self) -> Seq<char> {
        key_of(*self.record, *self.registry)
    }

    open spec fn title_spec(&self) -> Seq<char> {
        title_of(*self.record, *self.registry)
    }

    fn generate_tree_node_hashmap_key(&self) -> (key: String) {
        record_key(self.record, self.registry)
    }

    fn get_title(&self) -> (title: String) {
        record_title(self.record, self.registry)
    }
}

} // verus!
