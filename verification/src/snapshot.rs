//! Building and querying an immutable snapshot: the flat node table and
//! the search index, produced together by one all-or-nothing build pass
//! over a validated tree, then queried with pure reads.

use vstd::prelude::*;
use crate::flatten::{
    flatten, nodes_view, rec_height, spec_flatten, FlatNode, FlattenError, NodeV,
};
use crate::index::{
    build_index, entries_view, exact_keys, normalize, normalized, search_exact_in,
    search_substring_in, spec_index, substring_keys, IndexEntry, SearchMode,
};
use crate::keys::string_views;
use crate::record::Record;
use crate::registry::{tree_config_error, validate_tree, ConfigError, Registry};

verus! {

/// A published, immutable snapshot: the flat node table with its search
/// index.  Built once; every query is a pure read.
pub struct Snapshot {
    pub nodes: Vec<FlatNode>,
    pub index: Vec<IndexEntry>,
}

/// What a whole build can fail with.
#[derive(Debug)]
pub enum BuildError {
    /// Rejected during eager `TreeSpec` validation.
    Config(ConfigError),
    /// Rejected during traversal.
    Flatten(FlattenError),
}

/// The first node of the table carrying `key`, if any.
pub open spec fn table_lookup(nodes: Seq<NodeV>, key: Seq<char>) -> Option<NodeV>
    decreases nodes.len(),
{
    if nodes.len() == 0 {
        None
    } else if nodes[0].key == key {
        Some(nodes[0])
    } else {
        table_lookup(nodes.drop_first(), key)
    }
}

/// What a successful build of `root` against `reg` publishes.
pub open spec fn is_snapshot_of(root: Record, reg: Registry, snap: Snapshot) -> bool {
    &&& tree_config_error(root, reg) is None
    &&& spec_flatten(root, reg, None, 0, Seq::empty()) == Ok::<Seq<NodeV>, Seq<char>>(
        nodes_view(snap.nodes@),
    )
    &&& entries_view(snap.index@) == spec_index(nodes_view(snap.nodes@), reg)
}

/// The structural well-formedness of a flat table: keys are unique, the
/// first node is the one root (depth 0, no parent), and every other node
/// points to a parent that exists one level up.
pub open spec fn table_wf(nodes: Seq<NodeV>) -> bool {
    &&& forall|i: int, j: int|
        0 <= i < j < nodes.len() ==> #[trigger] nodes[i].key != #[trigger] nodes[j].key
    &&& nodes.len() > 0 ==> nodes[0].parent_key is None && nodes[0].depth == 0
    &&& forall|j: int| 0 < j < nodes.len() ==> (#[trigger] nodes[j].parent_key) is Some
    &&& forall|j: int|
        0 <= j < nodes.len() && (#[trigger] nodes[j].parent_key) is Some ==> exists|i: int|
            0 <= i < nodes.len() && (#[trigger] nodes[i].key) == nodes[j].parent_key->0
                && nodes[i].depth + 1 == nodes[j].depth
}

/// A found key means the lookup succeeds.
pub proof fn lemma_contains_lookup(nodes: Seq<NodeV>, j: int)
    requires
        0 <= j < nodes.len(),
    ensures
        table_lookup(nodes, nodes[j].key) is Some,
    decreases nodes.len(),
{
    if nodes[0].key != nodes[j].key {
        assert(nodes.drop_first()[j - 1] == nodes[j]);
        lemma_contains_lookup(nodes.drop_first(), j - 1);
    }
}

/// Whatever the lookup returns is a member of the table with that key.
pub proof fn lemma_lookup_member(nodes: Seq<NodeV>, key: Seq<char>)
    requires
        table_lookup(nodes, key) is Some,
    ensures
        exists|j: int|
            0 <= j < nodes.len() && nodes[j] == table_lookup(nodes, key)->0 && (
            #[trigger] nodes[j].key) == key,
    decreases nodes.len(),
{
    if nodes.len() > 0 && nodes[0].key != key {
        lemma_lookup_member(nodes.drop_first(), key);
        let j0 = choose|j: int|
            0 <= j < nodes.drop_first().len() && nodes.drop_first()[j] == table_lookup(
                nodes.drop_first(),
                key,
            )->0 && nodes.drop_first()[j].key == key;
        assert(nodes[j0 + 1] == nodes.drop_first()[j0]);
    }
}

/// With unique keys the lookup of a member's key returns that member.
pub proof fn lemma_lookup_unique(nodes: Seq<NodeV>, j: int)
    requires
        forall|a: int, b: int|
            0 <= a < b < nodes.len() ==> #[trigger] nodes[a].key != #[trigger] nodes[b].key,
        0 <= j < nodes.len(),
    ensures
        table_lookup(nodes, nodes[j].key) == Some(nodes[j]),
{
    lemma_contains_lookup(nodes, j);
    lemma_lookup_member(nodes, nodes[j].key);
    let j0 = choose|i: int|
        0 <= i < nodes.len() && nodes[i] == table_lookup(nodes, nodes[j].key)->0 && nodes[i].key
            == nodes[j].key;
    if j0 != j {
        assert(false);
    }
}

/// Builds a snapshot from one root tree and the registry: eager
/// validation first, then the flattening traversal, then the search
/// index.  Either a complete snapshot is returned or a typed error; no
/// partial state is ever exposed.
pub fn build_snapshot(root: &Record, registry: &Registry) -> (res: Result<Snapshot, BuildError>)
    requires
        rec_height(*root) <= usize::MAX,
    ensures
        match tree_config_error(*root, *registry) {
            Some(e) => res matches Err(BuildError::Config(e2)) && e2 == e,
            None => match spec_flatten(*root, *registry, None, 0, Seq::empty()) {
                Ok(nodes) => res matches Ok(snap) && is_snapshot_of(*root, *registry, snap)
                    && nodes_view(snap.nodes@) == nodes && table_wf(nodes_view(snap.nodes@)),
                Err(k) => res matches Err(
                    BuildError::Flatten(FlattenError::DuplicateKey { key }),
                ) && key@ == k,
            },
        },
{
    match validate_tree(root, registry) {
        Err(e) => {
            return Err(BuildError::Config(e));
        },
        Ok(_) => {},
    }
    let table = match flatten(root, registry) {
        Ok(t) => t,
        Err(e) => {
            return Err(BuildError::Flatten(e));
        },
    };
    let index = build_index(&table, registry);
    let snap = Snapshot { nodes: table, index };
    proof {
        crate::laws::lemma_snapshot_wf(*root, *registry, snap);
    }
    Ok(snap)
}

/// The first node of the table carrying `key`.
pub fn find_node<'a>(nodes: &'a Vec<FlatNode>, key: &String) -> (res: Option<&'a FlatNode>)
    ensures
        match res {
            Some(n) => table_lookup(nodes_view(nodes@), key@) == Some(n@),
            None => table_lookup(nodes_view(nodes@), key@) is None,
        },
{
    let n = nodes.len();
    proof {
        assert(nodes_view(nodes@).skip(0) =~= nodes_view(nodes@));
    }
    for i in 0..n
        invariant
            n == nodes@.len(),
            table_lookup(nodes_view(nodes@), key@) == table_lookup(
                nodes_view(nodes@).skip(i as int),
                key@,
            ),
    {
        proof {
            assert(nodes_view(nodes@).skip(i as int)[0] == nodes_view(nodes@)[i as int]);
        }
        if nodes[i].key == *key {
            return Some(&nodes[i]);
        }
        proof {
            assert(nodes_view(nodes@).skip(i as int).drop_first() =~= nodes_view(nodes@).skip(
                i as int + 1,
            ));
        }
    }
    proof {
        assert(nodes_view(nodes@).skip(n as int) =~= Seq::<NodeV>::empty());
    }
    None
}

/// Copies one flat node out of the table.
fn clone_node(n: &FlatNode) -> (res: FlatNode)
    ensures
        res@ == n@,
{
    FlatNode {
        key: n.key.clone(),
        title: n.title.clone(),
        type_tag: n.type_tag,
        payload: crate::flatten::clone_fields(&n.payload),
        parent_key: crate::flatten::clone_opt_string(&n.parent_key),
        child_keys: crate::index::clone_strings(&n.child_keys),
        depth: n.depth,
    }
}

/// The nodes the table holds for the keys of `ks`, in order; keys the
/// table lacks contribute nothing.
pub open spec fn nodes_for_keys(nodes: Seq<NodeV>, ks: Seq<Seq<char>>) -> Seq<NodeV>
    decreases ks.len(),
{
    if ks.len() == 0 {
        Seq::empty()
    } else {
        let p = nodes_for_keys(nodes, ks.drop_last());
        match table_lookup(nodes, ks.last()) {
            Some(n) => p.push(n),
            None => p,
        }
    }
}

/// The direct children of the node at `key`: the nodes for its child
/// keys, in source order.  Empty when the key is unknown or a leaf.
pub open spec fn children_nodes(nodes: Seq<NodeV>, key: Seq<char>) -> Seq<NodeV> {
    match table_lookup(nodes, key) {
        Some(n) => nodes_for_keys(nodes, n.child_keys),
        None => Seq::empty(),
    }
}

impl Snapshot {
    /// Key lookup against the table.  Absence is a normal outcome, not
    /// an error.
    pub fn get_by_key<'a>(&'a self, key: &String) -> (res: Option<&'a FlatNode>)
        ensures
            match res {
                Some(n) => table_lookup(nodes_view(self.nodes@), key@) == Some(n@),
                None => table_lookup(nodes_view(self.nodes@), key@) is None,
            },
    {
        find_node(&self.nodes, key)
    }

    /// The direct children of the node at `key`, in source order; empty
    /// when the key is unknown or the node is a leaf (callers needing to
    /// distinguish check `get_by_key` first).
    pub fn get_children(&self, key: &String) -> (res: Vec<FlatNode>)
        ensures
            nodes_view(res@) == children_nodes(nodes_view(self.nodes@), key@),
    {
        let mut res: Vec<FlatNode> = Vec::new();
        let start = find_node(&self.nodes, key);
        let node = match start {
            None => {
                proof {
                    assert(nodes_view(res@) =~= Seq::<NodeV>::empty());
                }
                return res;
            },
            Some(n) => n,
        };
        let m = node.child_keys.len();
        proof {
            assert(nodes_view(res@) =~= Seq::<NodeV>::empty());
            assert(node@.child_keys.take(0) =~= Seq::<Seq<char>>::empty());
        }
        for j in 0..m
            invariant
                m == node.child_keys@.len(),
                m == node@.child_keys.len(),
                table_lookup(nodes_view(self.nodes@), key@) == Some(node@),
                nodes_view(res@) == nodes_for_keys(
                    nodes_view(self.nodes@),
                    node@.child_keys.take(j as int),
                ),
        {
            proof {
                assert(node@.child_keys.take(j as int + 1).drop_last() =~= node@.child_keys.take(
                    j as int,
                ));
                assert(node@.child_keys.take(j as int + 1).last() == node@.child_keys[j as int]);
                assert(node@.child_keys[j as int] == node.child_keys@[j as int]@);
            }
            match find_node(&self.nodes, &node.child_keys[j]) {
                Some(c) => {
                    let copy = clone_node(c);
                    res.push(copy);
                    proof {
                        assert(nodes_view(res@) =~= nodes_for_keys(
                            nodes_view(self.nodes@),
                            node@.child_keys.take(j as int),
                        ).push(c@));
                    }
                },
                None => {},
            }
        }
        proof {
            assert(node@.child_keys.take(m as int) =~= node@.child_keys);
        }
        res
    }

    /// The ancestors of the node at `key`, from its parent up to the
    /// root, by repeated parent-key lookups; empty when the key is
    /// unknown or names the root.
    pub fn get_ancestors(&self, key: &String) -> (res: Vec<FlatNode>)
        requires
            table_wf(nodes_view(self.nodes@)),
        ensures
            ({
                let nodes = nodes_view(self.nodes@);
                match table_lookup(nodes, key@) {
                    None => res@.len() == 0,
                    Some(n0) => {
                        let chain = seq![n0] + nodes_view(res@);
                        &&& res@.len() == n0.depth
                        &&& forall|i: int|
                            0 <= i < chain.len() - 1 ==> (#[trigger] chain[i].parent_key) == Some(
                                chain[i + 1].key,
                            ) && table_lookup(nodes, chain[i + 1].key) == Some(chain[i + 1])
                        &&& chain.last().parent_key is None
                    },
                }
            }),
    {
        let ghost nodes = nodes_view(self.nodes@);
        let mut res: Vec<FlatNode> = Vec::new();
        let start = find_node(&self.nodes, key);
        let mut cur = match start {
            None => {
                return res;
            },
            Some(n) => n,
        };
        let ghost n0 = cur@;
        proof {
            assert(seq![n0] + nodes_view(res@) =~= seq![n0]);
            lemma_lookup_member(nodes, key@);
            assert(n0.key == key@);
        }
        while cur.parent_key.is_some()
            invariant
                table_wf(nodes),
                nodes == nodes_view(self.nodes@),
                table_lookup(nodes, key@) == Some(n0),
                table_lookup(nodes, cur@.key) == Some(cur@),
                (seq![n0] + nodes_view(res@)).last() == cur@,
                res@.len() + cur@.depth == n0.depth,
                forall|i: int|
                    0 <= i < (seq![n0] + nodes_view(res@)).len() - 1 ==> (#[trigger] (seq![n0]
                        + nodes_view(res@))[i].parent_key) == Some(
                        (seq![n0] + nodes_view(res@))[i + 1].key,
                    ) && table_lookup(nodes, (seq![n0] + nodes_view(res@))[i + 1].key) == Some(
                        (seq![n0] + nodes_view(res@))[i + 1],
                    ),
            decreases cur.depth,
        {
            proof {
                lemma_lookup_member(nodes, cur@.key);
            }
            let ghost jc = choose|j: int|
                0 <= j < nodes.len() && nodes[j] == cur@ && nodes[j].key == cur@.key;
            let p = match &cur.parent_key {
                Some(p) => p,
                None => {
                    proof {
                        assert(false);
                    }
                    unreached()
                },
            };
            let ghost ji = choose|i: int|
                0 <= i < nodes.len() && nodes[i].key == nodes[jc].parent_key->0 && nodes[i].depth
                    + 1 == nodes[jc].depth;
            proof {
                lemma_lookup_unique(nodes, ji);
            }
            let parent = match find_node(&self.nodes, p) {
                Some(q) => q,
                None => {
                    proof {
                        assert(false);
                    }
                    unreached()
                },
            };
            proof {
                assert(parent@ == nodes[ji]);
            }
            let ghost old_chain = seq![n0] + nodes_view(res@);
            let copy = clone_node(parent);
            res.push(copy);
            cur = parent;
            proof {
                let chain = seq![n0] + nodes_view(res@);
                assert(chain =~= old_chain.push(parent@));
                assert forall|i: int|
                    0 <= i < chain.len() - 1 implies (#[trigger] chain[i].parent_key) == Some(
                    chain[i + 1].key,
                ) && table_lookup(nodes, chain[i + 1].key) == Some(chain[i + 1]) by {
                    if i < old_chain.len() - 1 {
                        assert(chain[i] == old_chain[i]);
                        assert(chain[i + 1] == old_chain[i + 1]);
                    } else {
                        assert(chain[i] == old_chain.last());
                        assert(chain[i + 1] == parent@);
                    }
                }
            }
        }
        proof {
            lemma_lookup_member(nodes, cur@.key);
            let jc = choose|j: int|
                0 <= j < nodes.len() && nodes[j] == cur@ && nodes[j].key == cur@.key;
            if jc > 0 {
                assert(nodes[jc].parent_key is Some);
                assert(false);
            }
            assert(cur@.depth == 0);
        }
        res
    }

    /// Searches one field for a query, after normalizing the query the
    /// same way indexed values were normalized.  Searching a field that
    /// was never indexed returns an empty result, not an error.
    pub fn search(&self, field: &String, query: &String, mode: SearchMode) -> (res: Vec<String>)
        ensures
            string_views(res@) == match mode {
                SearchMode::Exact => exact_keys(
                    entries_view(self.index@),
                    field@,
                    normalized(query@),
                ),
                SearchMode::Substring => substring_keys(
                    entries_view(self.index@),
                    field@,
                    normalized(query@),
                ),
            },
    {
        let nq = normalize(query);
        match mode {
            SearchMode::Exact => search_exact_in(&self.index, field, &nq),
            SearchMode::Substring => search_substring_in(&self.index, field, &nq),
        }
    }

    /// How many nodes the build flattened.
    pub fn node_count(&self) -> (res: usize)
        ensures
            res == self.nodes@.len(),
    {
        self.nodes.len()
    }

    /// How many `(field, value)` entries the search index holds.
    pub fn entry_count(&self) -> (res: usize)
        ensures
            res == self.index@.len(),
    {
        self.index.len()
    }
}

} // verus!
