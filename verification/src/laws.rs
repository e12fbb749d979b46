//! The library's laws: determinism of a build, key uniqueness,
//! parent/child round-trip linkage, depth monotonicity and search
//! completeness, each proved over the same specifications the build and
//! query contracts are stated in.

use vstd::prelude::*;
use crate::flatten::{
    child_keys_of, contains_key, node_of, nodes_view, spec_flatten, spec_flatten_children, NodeV,
};
use crate::index::{
    add_fields, add_key, add_to_index, entries_view, entry_matches, exact_keys,
    normalized, spec_index, EntryV,
};
use crate::keys::key_of;
use crate::record::{lookup_field, Record};
use crate::registry::{lookup_spec, Registry};
use crate::snapshot::{is_snapshot_of, table_wf, Snapshot};

verus! {

/// No two nodes of the table share a key.
pub open spec fn distinct_keys(nodes: Seq<NodeV>) -> bool {
    forall|i: int, j: int|
        0 <= i < j < nodes.len() ==> #[trigger] nodes[i].key != #[trigger] nodes[j].key
}

/// No key appears twice in the list.
pub open spec fn no_dup(ks: Seq<Seq<char>>) -> bool {
    forall|i: int, j: int| 0 <= i < j < ks.len() ==> ks[i] != ks[j]
}

/// Node `j` of the table is linked to a parent that stands earlier in
/// the table, no closer than `lo`: the parent carries the child's
/// `parent_key`, sits one level up, and lists the child's key.
pub open spec fn child_linked(nodes: Seq<NodeV>, lo: int, j: int) -> bool {
    &&& nodes[j].parent_key is Some
    &&& exists|i: int|
        lo <= i < j && (#[trigger] nodes[i].key) == nodes[j].parent_key->0 && nodes[i].depth + 1
            == nodes[j].depth && nodes[i].child_keys.contains(nodes[j].key)
}

/// `x` is the subtree root of one of the sibling trees `cs`, flattened
/// under parent key `pk` at depth `d`.
pub open spec fn sibling_root(
    cs: Seq<Record>,
    reg: Registry,
    pk: Seq<char>,
    d: nat,
    x: NodeV,
) -> bool {
    &&& x.parent_key == Some(pk)
    &&& x.depth == d
    &&& exists|t: int| 0 <= t < cs.len() && (#[trigger] key_of(cs[t], reg)) == x.key
}

/// The structural facts a successful flattening of one tree adds to the
/// accumulator: the subtree root goes first, keys stay distinct, every
/// deeper node is linked to a parent inside the new segment, and child
/// key lists stay duplicate-free.
pub proof fn lemma_flatten_props(
    r: Record,
    reg: Registry,
    pk: Option<Seq<char>>,
    d: nat,
    acc: Seq<NodeV>,
)
    requires
        distinct_keys(acc),
    ensures
        match spec_flatten(r, reg, pk, d, acc) {
            Ok(out) => {
                &&& out.len() > acc.len()
                &&& out.take(acc.len() as int) == acc
                &&& out[acc.len() as int] == node_of(r, reg, pk, d)
                &&& !contains_key(acc, key_of(r, reg))
                &&& distinct_keys(out)
                &&& forall|j: int|
                    acc.len() < j < out.len() ==> child_linked(out, acc.len() as int, j)
                &&& forall|j: int|
                    acc.len() <= j < out.len() ==> no_dup((#[trigger] out[j]).child_keys)
            },
            Err(_) => true,
        },
    decreases r,
{
    let key = key_of(r, reg);
    if !contains_key(acc, key) {
        let node = node_of(r, reg, pk, d);
        let acc1 = acc.push(node);
        assert(distinct_keys(acc1)) by {
            assert forall|i: int, j: int|
                0 <= i < j < acc1.len() implies #[trigger] acc1[i].key != #[trigger] acc1[j].key by {
                if j == acc.len() {
                    assert(acc1[i] == acc[i]);
                    if acc[i].key == key {
                        assert(contains_key(acc, key));
                    }
                } else {
                    assert(acc1[i] == acc[i]);
                    assert(acc1[j] == acc[j]);
                }
            }
        }
        lemma_flatten_children_props(r.children@, reg, key, d + 1, acc1);
        match spec_flatten_children(r.children@, reg, key, d + 1, acc1) {
            Ok(out) => {
                assert(acc1.take(acc.len() as int) =~= acc);
                assert(out.take(acc.len() as int) =~= out.take(acc1.len() as int).take(
                    acc.len() as int,
                ));
                assert(out[acc.len() as int] == out.take(acc1.len() as int)[acc.len() as int]);
                assert(out[acc.len() as int] == node);
                // every deeper node is linked within the new segment
                assert forall|j: int|
                    acc.len() < j < out.len() implies child_linked(out, acc.len() as int, j) by {
                    if j >= acc1.len() {
                        if sibling_root(r.children@, reg, key, d + 1, out[j]) {
                            let t = choose|t: int|
                                0 <= t < r.children@.len() && (#[trigger] key_of(
                                    r.children@[t],
                                    reg,
                                )) == out[j].key;
                            assert(child_keys_of(r, reg)[t] == key_of(r.children@[t], reg));
                            assert(out[acc.len() as int].child_keys.contains(out[j].key));
                            assert(out[acc.len() as int].key == key);
                            assert(out[acc.len() as int].depth + 1 == out[j].depth);
                            assert(child_linked(out, acc.len() as int, j));
                        } else {
                            assert(child_linked(out, acc1.len() as int, j));
                            let i = choose|i: int|
                                acc1.len() <= i < j && (#[trigger] out[i].key)
                                    == out[j].parent_key->0 && out[i].depth + 1 == out[j].depth
                                    && out[i].child_keys.contains(out[j].key);
                            assert(acc.len() <= i < j);
                            assert(child_linked(out, acc.len() as int, j));
                        }
                    }
                }
                // child key lists have no duplicates
                assert forall|j: int|
                    acc.len() <= j < out.len() implies no_dup((#[trigger] out[j]).child_keys) by {
                    if j == acc.len() {
                        assert(out[j].child_keys == child_keys_of(r, reg));
                        assert forall|t1: int, t2: int|
                            0 <= t1 < t2 < child_keys_of(r, reg).len() implies child_keys_of(
                            r,
                            reg,
                        )[t1] != child_keys_of(r, reg)[t2] by {
                            assert(child_keys_of(r, reg)[t1] == key_of(r.children@[t1], reg));
                            assert(child_keys_of(r, reg)[t2] == key_of(r.children@[t2], reg));
                        }
                    }
                }
            },
            Err(_) => {},
        }
    }
}

/// A sequence agrees with its prefix pointwise.
proof fn lemma_seq_prefix_index(out: Seq<NodeV>, a: Seq<NodeV>)
    requires
        a.len() <= out.len(),
        out.take(a.len() as int) == a,
    ensures
        forall|i: int| 0 <= i < a.len() ==> out[i] == a[i],
{
    assert forall|i: int| 0 <= i < a.len() implies out[i] == a[i] by {
        assert(out.take(a.len() as int)[i] == a[i]);
    }
}

/// Freshness of every sibling root key against the initial
/// accumulator, assembled from the facts of one induction step.
proof fn lemma_cp_fresh(cs: Seq<Record>, reg: Registry, acc: Seq<NodeV>, a: Seq<NodeV>)
    requires
        cs.len() > 0,
        acc.len() <= a.len(),
        a.take(acc.len() as int) == acc,
        forall|t: int|
            0 <= t < cs.drop_last().len() ==> !contains_key(
                acc,
                #[trigger] key_of(cs.drop_last()[t], reg),
            ),
        !contains_key(a, key_of(cs.last(), reg)),
    ensures
        forall|t: int| 0 <= t < cs.len() ==> !contains_key(acc, #[trigger] key_of(cs[t], reg)),
{
    assert forall|t: int| 0 <= t < cs.len() implies !contains_key(
        acc,
        #[trigger] key_of(cs[t], reg),
    ) by {
        if t < cs.len() - 1 {
            assert(cs.drop_last()[t] == cs[t]);
        } else {
            assert(cs[t] == cs.last());
            if contains_key(acc, key_of(cs.last(), reg)) {
                let w = choose|w: int| 0 <= w < acc.len() && acc[w].key == key_of(cs.last(), reg);
                assert(a.take(acc.len() as int)[w] == acc[w]);
                assert(a[w].key == key_of(cs.last(), reg));
                assert(contains_key(a, key_of(cs.last(), reg)));
            }
        }
    }
}

/// Presence of every sibling's root node in the new segment.
proof fn lemma_cp_presence(
    cs: Seq<Record>,
    reg: Registry,
    pk: Seq<char>,
    d: nat,
    acc: Seq<NodeV>,
    a: Seq<NodeV>,
    out: Seq<NodeV>,
)
    requires
        cs.len() > 0,
        acc.len() <= a.len() < out.len(),
        forall|i: int| 0 <= i < a.len() ==> out[i] == a[i],
        forall|t: int|
            0 <= t < cs.drop_last().len() ==> exists|j: int|
                acc.len() <= j < a.len() && a[j] == node_of(
                    #[trigger] cs.drop_last()[t],
                    reg,
                    Some(pk),
                    d,
                ),
        out[a.len() as int] == node_of(cs.last(), reg, Some(pk), d),
    ensures
        forall|t: int|
            0 <= t < cs.len() ==> exists|j: int|
                acc.len() <= j < out.len() && out[j] == node_of(#[trigger] cs[t], reg, Some(pk), d),
{
    assert forall|t: int| 0 <= t < cs.len() implies exists|j: int|
        acc.len() <= j < out.len() && out[j] == node_of(#[trigger] cs[t], reg, Some(pk), d) by {
        if t < cs.len() - 1 {
            assert(cs.drop_last()[t] == cs[t]);
            let j = choose|j: int|
                acc.len() <= j < a.len() && a[j] == node_of(cs.drop_last()[t], reg, Some(pk), d);
            assert(out[j] == node_of(cs[t], reg, Some(pk), d));
        } else {
            assert(cs[t] == cs.last());
            assert(out[a.len() as int] == node_of(cs[t], reg, Some(pk), d));
        }
    }
}

/// Pairwise distinctness of the sibling root keys.
proof fn lemma_cp_pairwise(
    cs: Seq<Record>,
    reg: Registry,
    pk: Seq<char>,
    d: nat,
    acc: Seq<NodeV>,
    a: Seq<NodeV>,
)
    requires
        cs.len() > 0,
        acc.len() <= a.len(),
        forall|t: int|
            0 <= t < cs.drop_last().len() ==> exists|j: int|
                acc.len() <= j < a.len() && a[j] == node_of(
                    #[trigger] cs.drop_last()[t],
                    reg,
                    Some(pk),
                    d,
                ),
        forall|t1: int, t2: int|
            0 <= t1 < t2 < cs.drop_last().len() ==> #[trigger] key_of(cs.drop_last()[t1], reg)
                != #[trigger] key_of(cs.drop_last()[t2], reg),
        !contains_key(a, key_of(cs.last(), reg)),
    ensures
        forall|t1: int, t2: int|
            0 <= t1 < t2 < cs.len() ==> #[trigger] key_of(cs[t1], reg) != #[trigger] key_of(
                cs[t2],
                reg,
            ),
{
    assert forall|t1: int, t2: int| 0 <= t1 < t2 < cs.len() implies #[trigger] key_of(cs[t1], reg)
        != #[trigger] key_of(cs[t2], reg) by {
        if t2 < cs.len() - 1 {
            assert(cs.drop_last()[t1] == cs[t1]);
            assert(cs.drop_last()[t2] == cs[t2]);
        } else {
            assert(cs.drop_last()[t1] == cs[t1]);
            assert(cs[t2] == cs.last());
            let j = choose|j: int|
                acc.len() <= j < a.len() && a[j] == node_of(cs.drop_last()[t1], reg, Some(pk), d);
            if key_of(cs[t1], reg) == key_of(cs.last(), reg) {
                assert(a[j].key == key_of(cs.last(), reg));
                assert(contains_key(a, key_of(cs.last(), reg)));
            }
        }
    }
}

/// Every node of the new segment is a sibling root or linked deeper.
proof fn lemma_cp_linkage(
    cs: Seq<Record>,
    reg: Registry,
    pk: Seq<char>,
    d: nat,
    acc: Seq<NodeV>,
    a: Seq<NodeV>,
    out: Seq<NodeV>,
)
    requires
        cs.len() > 0,
        acc.len() <= a.len() < out.len(),
        forall|i: int| 0 <= i < a.len() ==> out[i] == a[i],
        forall|j: int|
            acc.len() <= j < a.len() ==> sibling_root(cs.drop_last(), reg, pk, d, #[trigger] a[j])
                || child_linked(a, acc.len() as int, j),
        out[a.len() as int] == node_of(cs.last(), reg, Some(pk), d),
        forall|j: int| (a.len() as int) < j < out.len() ==> child_linked(out, a.len() as int, j),
    ensures
        forall|j: int|
            acc.len() <= j < out.len() ==> sibling_root(cs, reg, pk, d, #[trigger] out[j])
                || child_linked(out, acc.len() as int, j),
{
    assert forall|j: int| acc.len() <= j < out.len() implies sibling_root(
        cs,
        reg,
        pk,
        d,
        #[trigger] out[j],
    ) || child_linked(out, acc.len() as int, j) by {
        if j < a.len() {
            assert(out[j] == a[j]);
            if sibling_root(cs.drop_last(), reg, pk, d, a[j]) {
                let t = choose|t: int|
                    0 <= t < cs.drop_last().len() && (#[trigger] key_of(cs.drop_last()[t], reg))
                        == a[j].key;
                assert(cs[t] == cs.drop_last()[t]);
                assert(key_of(cs[t], reg) == out[j].key);
                assert(sibling_root(cs, reg, pk, d, out[j]));
            } else {
                assert(child_linked(a, acc.len() as int, j));
                let i = choose|i: int|
                    acc.len() <= i < j && (#[trigger] a[i].key) == a[j].parent_key->0 && a[i].depth
                        + 1 == a[j].depth && a[i].child_keys.contains(a[j].key);
                assert(out[i] == a[i]);
                assert(child_linked(out, acc.len() as int, j));
            }
        } else if j == a.len() {
            assert(key_of(cs[cs.len() - 1], reg) == out[j].key);
            assert(sibling_root(cs, reg, pk, d, out[j]));
        } else {
            assert(child_linked(out, a.len() as int, j));
            let i = choose|i: int|
                a.len() <= i < j && (#[trigger] out[i].key) == out[j].parent_key->0 && out[i].depth
                    + 1 == out[j].depth && out[i].child_keys.contains(out[j].key);
            assert(acc.len() <= i < j);
            assert(child_linked(out, acc.len() as int, j));
        }
    }
}

/// The same structural facts for flattening a list of sibling trees in
/// order: sibling root keys are fresh and pairwise distinct, each
/// sibling's root node lands in the new segment, and every new node is
/// either one of those roots or linked deeper inside.
#[verifier::rlimit(100)]
pub proof fn lemma_flatten_children_props(
    cs: Seq<Record>,
    reg: Registry,
    pk: Seq<char>,
    d: nat,
    acc: Seq<NodeV>,
)
    requires
        distinct_keys(acc),
    ensures
        match spec_flatten_children(cs, reg, pk, d, acc) {
            Ok(out) => {
                &&& out.len() >= acc.len()
                &&& out.take(acc.len() as int) == acc
                &&& distinct_keys(out)
                &&& forall|t: int|
                    0 <= t < cs.len() ==> !contains_key(acc, #[trigger] key_of(cs[t], reg))
                &&& forall|t: int|
                    0 <= t < cs.len() ==> exists|j: int|
                        acc.len() <= j < out.len() && out[j] == node_of(
                            #[trigger] cs[t],
                            reg,
                            Some(pk),
                            d,
                        )
                &&& forall|t1: int, t2: int|
                    0 <= t1 < t2 < cs.len() ==> #[trigger] key_of(cs[t1], reg) != #[trigger] key_of(
                        cs[t2],
                        reg,
                    )
                &&& forall|j: int|
                    acc.len() <= j < out.len() ==> sibling_root(cs, reg, pk, d, #[trigger] out[j])
                        || child_linked(out, acc.len() as int, j)
                &&& forall|j: int|
                    acc.len() <= j < out.len() ==> no_dup((#[trigger] out[j]).child_keys)
            },
            Err(_) => true,
        },
    decreases cs,
{
    if cs.len() > 0 {
        let cs0 = cs.drop_last();
        lemma_flatten_children_props(cs0, reg, pk, d, acc);
        match spec_flatten_children(cs0, reg, pk, d, acc) {
            Ok(a) => {
                lemma_flatten_props(cs.last(), reg, Some(pk), d, a);
                match spec_flatten(cs.last(), reg, Some(pk), d, a) {
                    Ok(out) => {
                        lemma_seq_prefix_index(out, a);
                        assert(out.take(acc.len() as int) =~= out.take(a.len() as int).take(
                            acc.len() as int,
                        ));
                        lemma_cp_fresh(cs, reg, acc, a);
                        lemma_cp_presence(cs, reg, pk, d, acc, a, out);
                        lemma_cp_pairwise(cs, reg, pk, d, acc, a);
                        lemma_cp_linkage(cs, reg, pk, d, acc, a, out);
                        // duplicate-free child key lists
                        assert forall|j: int| acc.len() <= j < out.len() implies no_dup(
                            (#[trigger] out[j]).child_keys,
                        ) by {
                            if j < a.len() {
                                assert(out[j] == a[j]);
                            }
                        }
                    },
                    Err(_) => {},
                }
            },
            Err(_) => {},
        }
    } else {
        assert(spec_flatten_children(cs, reg, pk, d, acc) == Ok::<Seq<NodeV>, Seq<char>>(acc));
        assert(acc.take(acc.len() as int) =~= acc);
    }
}

/// Determinism: flattening the same tree against the same registry twice
/// yields the same keys, the same child key ordering, and the same
/// search index — a snapshot is a function of its inputs.
pub proof fn lemma_build_deterministic(root: Record, reg: Registry, s1: Snapshot, s2: Snapshot)
    requires
        is_snapshot_of(root, reg, s1),
        is_snapshot_of(root, reg, s2),
    ensures
        nodes_view(s1.nodes@) == nodes_view(s2.nodes@),
        entries_view(s1.index@) == entries_view(s2.index@),
{
}

/// Key uniqueness: no two distinct nodes of a successfully built
/// snapshot share a key.
pub proof fn lemma_key_uniqueness(root: Record, reg: Registry, snap: Snapshot)
    requires
        is_snapshot_of(root, reg, snap),
    ensures
        distinct_keys(nodes_view(snap.nodes@)),
{
    lemma_flatten_props(root, reg, None, 0, Seq::empty());
}

/// Round-trip linkage: every node with a parent key is listed in that
/// parent's `child_keys` exactly once — the parent stands earlier in the
/// table, sits one level up, and no child key list repeats a key.
pub proof fn lemma_round_trip_linkage(root: Record, reg: Registry, snap: Snapshot)
    requires
        is_snapshot_of(root, reg, snap),
    ensures
        ({
            let nodes = nodes_view(snap.nodes@);
            &&& forall|j: int| 0 < j < nodes.len() ==> child_linked(nodes, 0, j)
            &&& forall|j: int|
                0 <= j < nodes.len() ==> no_dup((#[trigger] nodes[j]).child_keys)
        }),
{
    lemma_flatten_props(root, reg, None, 0, Seq::empty());
}

/// Depth monotonicity: the table's one root has depth 0 and no parent;
/// every other node points to a parent exactly one level up.
pub proof fn lemma_depth_monotonicity(root: Record, reg: Registry, snap: Snapshot)
    requires
        is_snapshot_of(root, reg, snap),
    ensures
        ({
            let nodes = nodes_view(snap.nodes@);
            &&& nodes.len() > 0
            &&& nodes[0].depth == 0
            &&& nodes[0].parent_key is None
            &&& forall|j: int|
                0 < j < nodes.len() ==> (#[trigger] nodes[j].parent_key) is Some && exists|i: int|
                    0 <= i < j && (#[trigger] nodes[i].key) == nodes[j].parent_key->0
                        && nodes[i].depth + 1 == nodes[j].depth
        }),
{
    lemma_flatten_props(root, reg, None, 0, Seq::empty());
    let nodes = nodes_view(snap.nodes@);
    assert forall|j: int| 0 < j < nodes.len() implies (#[trigger] nodes[j].parent_key) is Some
        && exists|i: int|
        0 <= i < j && (#[trigger] nodes[i].key) == nodes[j].parent_key->0 && nodes[i].depth + 1
            == nodes[j].depth by {
        assert(child_linked(nodes, 0, j));
        let i = choose|i: int|
            0 <= i < j && (#[trigger] nodes[i].key) == nodes[j].parent_key->0 && nodes[i].depth + 1
                == nodes[j].depth && nodes[i].child_keys.contains(nodes[j].key);
        assert(0 <= i < j && nodes[i].key == nodes[j].parent_key->0 && nodes[i].depth + 1
            == nodes[j].depth);
    }
}

/// A built snapshot's table is structurally well formed, which is what
/// the ancestor walk relies on.
pub proof fn lemma_snapshot_wf(root: Record, reg: Registry, snap: Snapshot)
    requires
        is_snapshot_of(root, reg, snap),
    ensures
        table_wf(nodes_view(snap.nodes@)),
{
    lemma_key_uniqueness(root, reg, snap);
    lemma_depth_monotonicity(root, reg, snap);
    let nodes = nodes_view(snap.nodes@);
    assert forall|j: int|
        0 <= j < nodes.len() && (#[trigger] nodes[j].parent_key) is Some implies exists|i: int|
        0 <= i < nodes.len() && (#[trigger] nodes[i].key) == nodes[j].parent_key->0
            && nodes[i].depth + 1 == nodes[j].depth by {
        assert(j != 0);
        let i = choose|i: int|
            0 <= i < j && (#[trigger] nodes[i].key) == nodes[j].parent_key->0 && nodes[i].depth + 1
                == nodes[j].depth;
        assert(0 <= i < nodes.len() && nodes[i].key == nodes[j].parent_key->0 && nodes[i].depth + 1
            == nodes[j].depth);
    }
}

/// Some entry of the index is the `(f, v)` slot and lists `k`.
pub open spec fn index_mem(idx: Seq<EntryV>, f: Seq<char>, v: Seq<char>, k: Seq<char>) -> bool {
    exists|a: int|
        0 <= a < idx.len() && entry_matches(#[trigger] idx[a], f, v) && idx[a].keys.contains(k)
}

/// No two entries of the index share their `(field, value)` pair.
pub open spec fn index_wf(idx: Seq<EntryV>) -> bool {
    forall|a: int, b: int|
        0 <= a < b < idx.len() ==> !entry_matches(
            #[trigger] idx[a],
            (#[trigger] idx[b]).field,
            idx[b].value,
        )
}

/// What one insertion into the index guarantees: the key is recorded
/// under `(f, v)`, older records survive, well-formedness survives, and
/// no entry with a brand-new pair other than `(f, v)` appears.
proof fn lemma_add_props(idx: Seq<EntryV>, f: Seq<char>, v: Seq<char>, k: Seq<char>)
    ensures
        ({
            let out = add_to_index(idx, f, v, k);
            &&& index_mem(out, f, v, k)
            &&& forall|f2: Seq<char>, v2: Seq<char>, k2: Seq<char>|
                #[trigger] index_mem(idx, f2, v2, k2) ==> index_mem(out, f2, v2, k2)
            &&& (index_wf(idx) ==> index_wf(out))
            &&& forall|b: int|
                0 <= b < out.len() ==> (exists|a: int|
                    0 <= a < idx.len() && entry_matches(
                        #[trigger] idx[a],
                        (#[trigger] out[b]).field,
                        out[b].value,
                    )) || (out[b].field == f && out[b].value == v)
        }),
    decreases idx.len(),
{
    let out = add_to_index(idx, f, v, k);
    if idx.len() == 0 {
        assert(out[0].keys == seq![k]);
        assert(seq![k][0] == k);
        assert(out[0].keys.contains(k));
        assert(entry_matches(out[0], f, v));
        assert(index_mem(out, f, v, k));
    } else if entry_matches(idx[0], f, v) {
        let nk = add_key(idx[0].keys, k);
        assert(out[0].keys == nk);
        if idx[0].keys.contains(k) {
            assert(nk.contains(k));
        } else {
            assert(nk[nk.len() - 1] == k);
            assert(nk.contains(k));
        }
        assert(entry_matches(out[0], f, v));
        assert(index_mem(out, f, v, k));
        assert forall|i: int| 1 <= i < out.len() implies out[i] == idx[i] by {
            assert(out[i] == idx.drop_first()[i - 1]);
        }
        // superset of the old head's keys
        assert forall|k2: Seq<char>| idx[0].keys.contains(k2) implies nk.contains(k2) by {
            let w = choose|w: int| 0 <= w < idx[0].keys.len() && idx[0].keys[w] == k2;
            assert(nk[w] == k2);
        }
        assert forall|f2: Seq<char>, v2: Seq<char>, k2: Seq<char>|
            #[trigger] index_mem(idx, f2, v2, k2) implies index_mem(out, f2, v2, k2) by {
            let a = choose|a: int|
                0 <= a < idx.len() && entry_matches(#[trigger] idx[a], f2, v2)
                    && idx[a].keys.contains(k2);
            if a == 0 {
                assert(entry_matches(out[0], f2, v2));
                assert(out[0].keys.contains(k2));
                assert(index_mem(out, f2, v2, k2));
            } else {
                assert(out[a] == idx[a]);
                assert(index_mem(out, f2, v2, k2));
            }
        }
    } else {
        let rec = add_to_index(idx.drop_first(), f, v, k);
        lemma_add_props(idx.drop_first(), f, v, k);
        assert(out == seq![idx[0]] + rec);
        assert(out[0] == idx[0]);
        assert forall|i: int| 1 <= i < out.len() implies out[i] == rec[i - 1] by {}
        // the new key is recorded
        let a0 = choose|a: int|
            0 <= a < rec.len() && entry_matches(#[trigger] rec[a], f, v) && rec[a].keys.contains(k);
        assert(out[a0 + 1] == rec[a0]);
        assert(index_mem(out, f, v, k));
        // old records survive
        assert forall|f2: Seq<char>, v2: Seq<char>, k2: Seq<char>|
            #[trigger] index_mem(idx, f2, v2, k2) implies index_mem(out, f2, v2, k2) by {
            let a = choose|a: int|
                0 <= a < idx.len() && entry_matches(#[trigger] idx[a], f2, v2)
                    && idx[a].keys.contains(k2);
            if a == 0 {
                assert(index_mem(out, f2, v2, k2));
            } else {
                assert(idx.drop_first()[a - 1] == idx[a]);
                assert(index_mem(idx.drop_first(), f2, v2, k2));
                let w = choose|w: int|
                    0 <= w < rec.len() && entry_matches(#[trigger] rec[w], f2, v2)
                        && rec[w].keys.contains(k2);
                assert(out[w + 1] == rec[w]);
                assert(index_mem(out, f2, v2, k2));
            }
        }
        // well-formedness survives
        if index_wf(idx) {
            assert forall|a: int, b: int|
                0 <= a < b < idx.drop_first().len() implies !entry_matches(
                #[trigger] idx.drop_first()[a],
                (#[trigger] idx.drop_first()[b]).field,
                idx.drop_first()[b].value,
            ) by {
                assert(idx.drop_first()[a] == idx[a + 1]);
                assert(idx.drop_first()[b] == idx[b + 1]);
            }
            assert(index_wf(idx.drop_first()));
            assert forall|a: int, b: int| 0 <= a < b < out.len() implies !entry_matches(
                #[trigger] out[a],
                (#[trigger] out[b]).field,
                out[b].value,
            ) by {
                if a == 0 {
                    assert(out[b] == rec[b - 1]);
                    if entry_matches(idx[0], rec[b - 1].field, rec[b - 1].value) {
                        if exists|a2: int|
                            0 <= a2 < idx.drop_first().len() && entry_matches(
                                #[trigger] idx.drop_first()[a2],
                                rec[b - 1].field,
                                rec[b - 1].value,
                            ) {
                            let a2 = choose|a2: int|
                                0 <= a2 < idx.drop_first().len() && entry_matches(
                                    #[trigger] idx.drop_first()[a2],
                                    rec[b - 1].field,
                                    rec[b - 1].value,
                                );
                            assert(idx.drop_first()[a2] == idx[a2 + 1]);
                            assert(!entry_matches(idx[0], idx[a2 + 1].field, idx[a2 + 1].value));
                            assert(false);
                        } else {
                            assert(rec[b - 1].field == f && rec[b - 1].value == v);
                            assert(false);
                        }
                    }
                } else {
                    assert(out[a] == rec[a - 1]);
                    assert(out[b] == rec[b - 1]);
                }
            }
        }
    }
}

/// Indexing one node's searchable fields records every present value and
/// loses nothing.
proof fn lemma_add_fields_props(
    idx: Seq<EntryV>,
    names: Seq<String>,
    payload: Seq<crate::record::FieldValue>,
    key: Seq<char>,
)
    ensures
        ({
            let out = add_fields(idx, names, payload, key);
            &&& forall|f2: Seq<char>, v2: Seq<char>, k2: Seq<char>|
                #[trigger] index_mem(idx, f2, v2, k2) ==> index_mem(out, f2, v2, k2)
            &&& (index_wf(idx) ==> index_wf(out))
            &&& forall|t: int|
                0 <= t < names.len() && lookup_field(payload, (#[trigger] names[t])@) is Some
                    ==> index_mem(
                    out,
                    names[t]@,
                    normalized(lookup_field(payload, names[t]@)->0),
                    key,
                )
        }),
    decreases names.len(),
{
    if names.len() > 0 {
        let prev = add_fields(idx, names.drop_last(), payload, key);
        lemma_add_fields_props(idx, names.drop_last(), payload, key);
        let out = add_fields(idx, names, payload, key);
        match lookup_field(payload, names.last()@) {
            Some(v) => {
                lemma_add_props(prev, names.last()@, normalized(v), key);
                assert forall|t: int|
                    0 <= t < names.len() && lookup_field(
                        payload,
                        (#[trigger] names[t])@,
                    ) is Some implies index_mem(
                    out,
                    names[t]@,
                    normalized(lookup_field(payload, names[t]@)->0),
                    key,
                ) by {
                    if t < names.len() - 1 {
                        assert(names.drop_last()[t] == names[t]);
                        assert(index_mem(
                            prev,
                            names[t]@,
                            normalized(lookup_field(payload, names[t]@)->0),
                            key,
                        ));
                    } else {
                        assert(names[t] == names.last());
                    }
                }
            },
            None => {
                assert forall|t: int|
                    0 <= t < names.len() && lookup_field(
                        payload,
                        (#[trigger] names[t])@,
                    ) is Some implies index_mem(
                    out,
                    names[t]@,
                    normalized(lookup_field(payload, names[t]@)->0),
                    key,
                ) by {
                    assert(t < names.len() - 1 || names[t] == names.last());
                    if t < names.len() - 1 {
                        assert(names.drop_last()[t] == names[t]);
                    }
                }
            },
        }
    }
}

/// The whole index is well formed.
pub proof fn lemma_index_wf(nodes: Seq<NodeV>, reg: Registry)
    ensures
        index_wf(spec_index(nodes, reg)),
    decreases nodes.len(),
{
    if nodes.len() > 0 {
        lemma_index_wf(nodes.drop_last(), reg);
        let prev = spec_index(nodes.drop_last(), reg);
        match lookup_spec(reg.specs@, nodes.last().type_tag) {
            Some(ts) => {
                lemma_add_fields_props(prev, ts.searchable_fields@, nodes.last().payload,
                    nodes.last().key);
            },
            None => {},
        }
    }
}

/// Every node's searchable value is recorded in the index under its key.
proof fn lemma_index_node_complete(nodes: Seq<NodeV>, reg: Registry, j: int, t: int)
    requires
        0 <= j < nodes.len(),
        lookup_spec(reg.specs@, nodes[j].type_tag) is Some,
        0 <= t < lookup_spec(reg.specs@, nodes[j].type_tag)->0.searchable_fields@.len(),
        lookup_field(
            nodes[j].payload,
            lookup_spec(reg.specs@, nodes[j].type_tag)->0.searchable_fields@[t]@,
        ) is Some,
    ensures
        ({
            let ts = lookup_spec(reg.specs@, nodes[j].type_tag)->0;
            let fname = ts.searchable_fields@[t]@;
            let value = lookup_field(nodes[j].payload, fname)->0;
            index_mem(spec_index(nodes, reg), fname, normalized(value), nodes[j].key)
        }),
    decreases nodes.len(),
{
    let prev = spec_index(nodes.drop_last(), reg);
    if j < nodes.len() - 1 {
        assert(nodes.drop_last()[j] == nodes[j]);
        lemma_index_node_complete(nodes.drop_last(), reg, j, t);
        match lookup_spec(reg.specs@, nodes.last().type_tag) {
            Some(ts2) => {
                lemma_add_fields_props(prev, ts2.searchable_fields@, nodes.last().payload,
                    nodes.last().key);
            },
            None => {},
        }
    } else {
        let ts = lookup_spec(reg.specs@, nodes[j].type_tag)->0;
        lemma_add_fields_props(prev, ts.searchable_fields@, nodes[j].payload, nodes[j].key);
    }
}

/// In a well-formed index the first `(f, v)` entry is the only one, so
/// an exact search surfaces every key recorded under the pair.
proof fn lemma_exact_from_mem(idx: Seq<EntryV>, f: Seq<char>, v: Seq<char>, k: Seq<char>)
    requires
        index_wf(idx),
        index_mem(idx, f, v, k),
    ensures
        exact_keys(idx, f, v).contains(k),
    decreases idx.len(),
{
    let a = choose|a: int|
        0 <= a < idx.len() && entry_matches(#[trigger] idx[a], f, v) && idx[a].keys.contains(k);
    if entry_matches(idx[0], f, v) {
        if a != 0 {
            assert(!entry_matches(idx[0], idx[a].field, idx[a].value));
            assert(false);
        }
        assert(exact_keys(idx, f, v) == idx[0].keys);
    } else {
        assert(a > 0);
        assert(idx.drop_first()[a - 1] == idx[a]);
        assert(index_mem(idx.drop_first(), f, v, k));
        assert forall|a2: int, b2: int|
            0 <= a2 < b2 < idx.drop_first().len() implies !entry_matches(
            #[trigger] idx.drop_first()[a2],
            (#[trigger] idx.drop_first()[b2]).field,
            idx.drop_first()[b2].value,
        ) by {
            assert(idx.drop_first()[a2] == idx[a2 + 1]);
            assert(idx.drop_first()[b2] == idx[b2 + 1]);
        }
        lemma_exact_from_mem(idx.drop_first(), f, v, k);
    }
}

/// Search completeness: for every node of a built snapshot and every
/// searchable field of its type whose value the node carries, an exact
/// search for the normalized value surfaces the node's key.
pub proof fn lemma_search_completeness(
    root: Record,
    reg: Registry,
    snap: Snapshot,
    j: int,
    t: int,
)
    requires
        is_snapshot_of(root, reg, snap),
        0 <= j < nodes_view(snap.nodes@).len(),
        lookup_spec(reg.specs@, nodes_view(snap.nodes@)[j].type_tag) is Some,
        0 <= t < lookup_spec(
            reg.specs@,
            nodes_view(snap.nodes@)[j].type_tag,
        )->0.searchable_fields@.len(),
        lookup_field(
            nodes_view(snap.nodes@)[j].payload,
            lookup_spec(
                reg.specs@,
                nodes_view(snap.nodes@)[j].type_tag,
            )->0.searchable_fields@[t]@,
        ) is Some,
    ensures
        ({
            let nodes = nodes_view(snap.nodes@);
            let ts = lookup_spec(reg.specs@, nodes[j].type_tag)->0;
            let fname = ts.searchable_fields@[t]@;
            let value = lookup_field(nodes[j].payload, fname)->0;
            exact_keys(entries_view(snap.index@), fname, normalized(value)).contains(nodes[j].key)
        }),
{
    let nodes = nodes_view(snap.nodes@);
    let ts = lookup_spec(reg.specs@, nodes[j].type_tag)->0;
    let fname = ts.searchable_fields@[t]@;
    let value = lookup_field(nodes[j].payload, fname)->0;
    lemma_index_wf(nodes, reg);
    lemma_index_node_complete(nodes, reg, j, t);
    lemma_exact_from_mem(spec_index(nodes, reg), fname, normalized(value), nodes[j].key);
}

} // verus!
