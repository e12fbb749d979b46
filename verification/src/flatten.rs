//! The Flattener: a depth-first traversal of one validated record tree,
//! producing the flat node table with parent/child key linkage, or
//! failing on the first duplicate key.
//!
//! The build is all-or-nothing: on an error the partial table is
//! discarded by the caller and never published.

use vstd::prelude::*;
use crate::keys::{key_of, record_key, string_views};
use crate::record::{field_value_or_empty, FieldValue, Record};
use crate::registry::{
    children_config_error, lookup_spec, record_config_error, tree_config_error, Registry,
};

verus! {

/// One flattened node.  Immutable once built: the table exclusively owns
/// its copies of the record data, so the source tree may be dropped.
pub struct FlatNode {
    /// The derived key, unique within the whole table.
    pub key: String,
    /// The value of the type's title field at build time.
    pub title: String,
    /// Which record type produced this node.
    pub type_tag: u64,
    /// The node's field values, copied out of the source record.
    pub payload: Vec<FieldValue>,
    /// Key of the parent node; `None` for the root.
    pub parent_key: Option<String>,
    /// Keys of the direct children, in source order.
    pub child_keys: Vec<String>,
    /// Root is 0, incremented per level.
    pub depth: usize,
}

/// The mathematical shape of a `FlatNode`.
pub ghost struct NodeV {
    pub key: Seq<char>,
    pub title: Seq<char>,
    pub type_tag: u64,
    pub payload: Seq<FieldValue>,
    pub parent_key: Option<Seq<char>>,
    pub child_keys: Seq<Seq<char>>,
    pub depth: nat,
}

impl View for FlatNode {
    type V = NodeV;

    open spec fn view(&self) -> NodeV {
        NodeV {
            key: self.key@,
            title: self.title@,
            type_tag: self.type_tag,
            payload: self.payload@,
            parent_key: opt_view(self.parent_key),
            child_keys: string_views(self.child_keys@),
            depth: self.depth as nat,
        }
    }
}

/// A traversal error.
#[derive(Debug)]
pub enum FlattenError {
    /// Two records in one tree derived the same key; the build aborts
    /// and no table is exposed.
    DuplicateKey { key: String },
    /// A record was reached twice in one traversal.  Children are held
    /// by value here, so the input is always a true tree and the engine
    /// never raises this; it remains part of the error surface for hosts
    /// that assemble trees from shared data.
    CycleDetected,
}

/// The view of an optional key.
pub open spec fn opt_view(o: Option<String>) -> Option<Seq<char>> {
    match o {
        Some(s) => Some(s@),
        None => None,
    }
}

/// The views of a table of flat nodes.
pub open spec fn nodes_view(t: Seq<FlatNode>) -> Seq<NodeV> {
    t.map(|i: int, n: FlatNode| n@)
}

/// The title of a record under the registry: the value of its type's
/// declared title field.  Validation rules out the fallback branches.
pub open spec fn title_of(r: Record, reg: Registry) -> Seq<char> {
    match lookup_spec(reg.specs@, r.type_tag) {
        Some(ts) => match ts.title_field {
            Some(t) => field_value_or_empty(r.fields@, t@),
            None => Seq::empty(),
        },
        None => Seq::empty(),
    }
}

/// The keys of a record's direct children, in source order.
pub open spec fn child_keys_of(r: Record, reg: Registry) -> Seq<Seq<char>> {
    r.children@.map(|i: int, c: Record| key_of(c, reg))
}

/// The flat node a record produces at parent key `pk` and depth `d`.
pub open spec fn node_of(r: Record, reg: Registry, pk: Option<Seq<char>>, d: nat) -> NodeV {
    NodeV {
        key: key_of(r, reg),
        title: title_of(r, reg),
        type_tag: r.type_tag,
        payload: r.fields@,
        parent_key: pk,
        child_keys: child_keys_of(r, reg),
        depth: d,
    }
}

/// Whether some node of the table carries `key`.
pub open spec fn contains_key(nodes: Seq<NodeV>, key: Seq<char>) -> bool {
    exists|i: int| 0 <= i < nodes.len() && nodes[i].key == key
}

/// Depth-first flattening of the tree rooted at `r` onto the accumulator
/// `acc`: the record's own node is appended (after the duplicate-key
/// check against everything flattened so far), then its children in
/// source order.  `Err` carries the first duplicated key.
pub open spec fn spec_flatten(
    r: Record,
    reg: Registry,
    pk: Option<Seq<char>>,
    d: nat,
    acc: Seq<NodeV>,
) -> Result<Seq<NodeV>, Seq<char>>
    decreases r,
{
    let key = key_of(r, reg);
    if contains_key(acc, key) {
        Err(key)
    } else {
        spec_flatten_children(r.children@, reg, key, d + 1, acc.push(node_of(r, reg, pk, d)))
    }
}

/// Flattens the trees of `cs` in order onto `acc`; the earliest
/// duplicate key wins.
pub open spec fn spec_flatten_children(
    cs: Seq<Record>,
    reg: Registry,
    pk: Seq<char>,
    d: nat,
    acc: Seq<NodeV>,
) -> Result<Seq<NodeV>, Seq<char>>
    decreases cs,
{
    if cs.len() == 0 {
        Ok(acc)
    } else {
        match spec_flatten_children(cs.drop_last(), reg, pk, d, acc) {
            Ok(a) => spec_flatten(cs.last(), reg, Some(pk), d, a),
            Err(e) => Err(e),
        }
    }
}

/// The height of a record tree: 1 for a leaf.
pub open spec fn rec_height(r: Record) -> nat
    decreases r,
{
    1 + children_height(r.children@)
}

/// The greatest height among the trees of `cs`; 0 when empty.
pub open spec fn children_height(cs: Seq<Record>) -> nat
    decreases cs,
{
    if cs.len() == 0 {
        0
    } else {
        let h1 = rec_height(cs.last());
        let h2 = children_height(cs.drop_last());
        if h1 > h2 {
            h1
        } else {
            h2
        }
    }
}

/// No tree of `cs` is taller than `children_height(cs)`.
pub proof fn lemma_children_height_ge(cs: Seq<Record>, i: int)
    requires
        0 <= i < cs.len(),
    ensures
        children_height(cs) >= rec_height(cs[i]),
    decreases cs.len(),
{
    if i < cs.len() - 1 {
        assert(cs.drop_last()[i] == cs[i]);
        lemma_children_height_ge(cs.drop_last(), i);
    }
}

/// A valid child list means every child tree is valid.
pub proof fn lemma_children_valid(cs: Seq<Record>, reg: Registry)
    requires
        children_config_error(cs, reg) is None,
    ensures
        forall|i: int| 0 <= i < cs.len() ==> tree_config_error(cs[i], reg) is None,
    decreases cs.len(),
{
    if cs.len() > 0 {
        lemma_children_valid(cs.drop_first(), reg);
        assert forall|i: int| 0 <= i < cs.len() implies tree_config_error(cs[i], reg) is None by {
            if i > 0 {
                assert(cs.drop_first()[i - 1] == cs[i]);
            }
        }
    }
}

/// Once a prefix of the child list fails, the whole list fails with the
/// same error.
pub proof fn lemma_children_err_prefix(
    cs: Seq<Record>,
    reg: Registry,
    pk: Seq<char>,
    d: nat,
    acc: Seq<NodeV>,
    k: int,
)
    requires
        0 <= k <= cs.len(),
        spec_flatten_children(cs.take(k), reg, pk, d, acc) is Err,
    ensures
        spec_flatten_children(cs, reg, pk, d, acc) == spec_flatten_children(
            cs.take(k),
            reg,
            pk,
            d,
            acc,
        ),
    decreases cs.len(),
{
    if cs.len() == k {
        assert(cs.take(k) =~= cs);
    } else {
        assert(cs.drop_last().take(k) =~= cs.take(k));
        lemma_children_err_prefix(cs.drop_last(), reg, pk, d, acc, k);
    }
}

/// Whether the table already holds a node with this key.
fn contains_key_exec(table: &Vec<FlatNode>, key: &String) -> (res: bool)
    ensures
        res == contains_key(nodes_view(table@), key@),
{
    let n = table.len();
    for i in 0..n
        invariant
            n == table@.len(),
            forall|j: int| 0 <= j < i ==> nodes_view(table@)[j].key != key@,
    {
        if table[i].key == *key {
            proof {
                assert(nodes_view(table@)[i as int].key == key@);
            }
            return true;
        }
    }
    false
}

/// Copies a record's fields; the table owns its own copies.
pub(crate) fn clone_fields(v: &Vec<FieldValue>) -> (res: Vec<FieldValue>)
    ensures
        res@ == v@,
{
    let mut res: Vec<FieldValue> = Vec::new();
    let n = v.len();
    for i in 0..n
        invariant
            n == v@.len(),
            res@ =~= v@.take(i as int),
    {
        res.push(FieldValue { name: v[i].name.clone(), value: v[i].value.clone() });
        proof {
            assert(res@ =~= v@.take(i as int + 1));
        }
    }
    proof {
        assert(v@.take(n as int) =~= v@);
    }
    res
}

/// Copies an optional key.
pub(crate) fn clone_opt_string(o: &Option<String>) -> (res: Option<String>)
    ensures
        res == *o,
{
    match o {
        Some(s) => Some(s.clone()),
        None => None,
    }
}

/// Reads the title value of a validated record.
pub fn record_title(r: &Record, reg: &Registry) -> (t: String)
    requires
        record_config_error(*r, *reg) is None,
    ensures
        t@ == title_of(*r, *reg),
{
    let found = reg.get_spec(r.type_tag);
    match found {
        Some(ts) => match &ts.title_field {
            Some(tf) => match r.get_field(tf) {
                Some(v) => v.clone(),
                None => {
                    proof {
                        assert(false);
                    }
                    unreached()
                },
            },
            None => {
                proof {
                    assert(false);
                }
                unreached()
            },
        },
        None => {
            proof {
                assert(false);
            }
            unreached()
        },
    }
}

/// Derives the keys of a record's direct children, in source order.
fn child_keys_exec(r: &Record, reg: &Registry) -> (res: Vec<String>)
    requires
        children_config_error(r.children@, *reg) is None,
    ensures
        string_views(res@) == child_keys_of(*r, *reg),
{
    proof {
        lemma_children_valid(r.children@, *reg);
    }
    let mut res: Vec<String> = Vec::new();
    let n = r.children.len();
    for i in 0..n
        invariant
            n == r.children@.len(),
            forall|j: int| 0 <= j < n ==> tree_config_error(r.children@[j], *reg) is None,
            res@.len() == i,
            forall|j: int| 0 <= j < i ==> res@[j]@ == child_keys_of(*r, *reg)[j],
    {
        let k = record_key(&r.children[i], reg);
        res.push(k);
    }
    proof {
        assert(string_views(res@) =~= child_keys_of(*r, *reg));
    }
    res
}

/// Flattens the tree rooted at `r` onto `table`, depth first.  On `Ok`
/// the table holds exactly what `spec_flatten` appends; on a duplicate
/// key the error carries that key and the caller discards the table.
pub fn flatten_into(
    r: &Record,
    reg: &Registry,
    parent_key: &Option<String>,
    depth: usize,
    table: &mut Vec<FlatNode>,
) -> (res: Result<(), FlattenError>)
    requires
        tree_config_error(*r, *reg) is None,
        depth + rec_height(*r) <= usize::MAX,
    ensures
        match spec_flatten(*r, *reg, opt_view(*parent_key), depth as nat, nodes_view(
            old(table)@,
        )) {
            Ok(nodes) => res is Ok && nodes_view(final(table)@) == nodes,
            Err(k) => res matches Err(FlattenError::DuplicateKey { key }) && key@ == k,
        },
    decreases *r,
{
    let ghost acc0 = nodes_view(old(table)@);
    let key = record_key(r, reg);
    if contains_key_exec(table, &key) {
        return Err(FlattenError::DuplicateKey { key });
    }
    let title = record_title(r, reg);
    let child_keys = child_keys_exec(r, reg);
    let node = FlatNode {
        key: key.clone(),
        title,
        type_tag: r.type_tag,
        payload: clone_fields(&r.fields),
        parent_key: clone_opt_string(parent_key),
        child_keys,
        depth,
    };
    proof {
        assert(node@ == node_of(*r, *reg, opt_view(*parent_key), depth as nat));
    }
    table.push(node);
    let ghost acc1 = acc0.push(node_of(*r, *reg, opt_view(*parent_key), depth as nat));
    proof {
        assert(nodes_view(table@) =~= acc1);
        assert(r.children@.take(0) =~= Seq::<Record>::empty());
        lemma_children_valid(r.children@, *reg);
    }
    let pk_child = Some(key);
    let n = r.children.len();
    for i in 0..n
        invariant
            n == r.children@.len(),
            opt_view(pk_child) == Some(key_of(*r, *reg)),
            forall|j: int| 0 <= j < n ==> tree_config_error(r.children@[j], *reg) is None,
            !contains_key(nodes_view(old(table)@), key_of(*r, *reg)),
            acc1 == nodes_view(old(table)@).push(
                node_of(*r, *reg, opt_view(*parent_key), depth as nat),
            ),
            depth < usize::MAX,
            depth + 1 + children_height(r.children@) <= usize::MAX,
            spec_flatten_children(
                r.children@.take(i as int),
                *reg,
                key_of(*r, *reg),
                depth as nat + 1,
                acc1,
            ) == Ok::<Seq<NodeV>, Seq<char>>(nodes_view(table@)),
    {
        proof {
            lemma_children_height_ge(r.children@, i as int);
        }
        let child_res = flatten_into(&r.children[i], reg, &pk_child, depth + 1, table);
        proof {
            assert(r.children@.take(i as int + 1).drop_last() =~= r.children@.take(i as int));
            assert(r.children@.take(i as int + 1).last() == r.children@[i as int]);
        }
        match child_res {
            Ok(_) => {},
            Err(e) => {
                proof {
                    lemma_children_err_prefix(
                        r.children@,
                        *reg,
                        key_of(*r, *reg),
                        depth as nat + 1,
                        acc1,
                        i as int + 1,
                    );
                }
                return Err(e);
            },
        }
    }
    proof {
        assert(r.children@.take(n as int) =~= r.children@);
    }
    Ok(())
}

/// Flattens one root record into a fresh table, or reports the first
/// duplicate key.  No partially built table is ever returned.
pub fn flatten(root: &Record, reg: &Registry) -> (res: Result<Vec<FlatNode>, FlattenError>)
    requires
        tree_config_error(*root, *reg) is None,
        rec_height(*root) <= usize::MAX,
    ensures
        match spec_flatten(*root, *reg, None, 0, Seq::empty()) {
            Ok(nodes) => res matches Ok(t) && nodes_view(t@) == nodes,
            Err(k) => res matches Err(FlattenError::DuplicateKey { key }) && key@ == k,
        },
{
    let mut table: Vec<FlatNode> = Vec::new();
    let pk: Option<String> = None;
    proof {
        assert(nodes_view(table@) =~= Seq::<NodeV>::empty());
    }
    match flatten_into(root, reg, &pk, 0, &mut table) {
        Ok(_) => Ok(table),
        Err(e) => Err(e),
    }
}

} // verus!
