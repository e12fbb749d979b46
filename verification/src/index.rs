//! The Search Index: for every node and every searchable field of its
//! type, the node's key is recorded under `(field name, normalized
//! value)`.  Values are normalized by ASCII case folding; substring
//! search is defined over the normalized form.

use vstd::prelude::*;
use vstd::string::StrSliceExecFns;
use crate::flatten::{nodes_view, FlatNode, NodeV};
use crate::keys::{chars_to_string, string_views};
use crate::record::{find_field, lookup_field, FieldValue};
use crate::registry::{lookup_spec, Registry};

verus! {

/// One index entry: the set of keys of the nodes that carry `value`
/// (normalized) in their searchable field `field`.
pub struct IndexEntry {
    pub field: String,
    pub value: String,
    pub keys: Vec<String>,
}

/// The mathematical shape of an `IndexEntry`.
pub ghost struct EntryV {
    pub field: Seq<char>,
    pub value: Seq<char>,
    pub keys: Seq<Seq<char>>,
}

impl View for IndexEntry {
    type V = EntryV;

    open spec fn view(&self) -> EntryV {
        EntryV { field: self.field@, value: self.value@, keys: string_views(self.keys@) }
    }
}

/// The views of a list of index entries.
pub open spec fn entries_view(t: Seq<IndexEntry>) -> Seq<EntryV> {
    t.map(|i: int, e: IndexEntry| e@)
}

/// How a search query is matched against indexed values.
#[derive(Clone, Copy, Debug, PartialEq, Eq, Structural)]
pub enum SearchMode {
    /// The whole normalized value must equal the normalized query.
    Exact,
    /// The normalized value must contain the normalized query.
    Substring,
}

/// Case folding of one character: ASCII capital letters map to their
/// lower-case form, everything else is unchanged.
pub open spec fn fold_char(c: char) -> char {
    match c {
        'A' => 'a',
        'B' => 'b',
        'C' => 'c',
        'D' => 'd',
        'E' => 'e',
        'F' => 'f',
        'G' => 'g',
        'H' => 'h',
        'I' => 'i',
        'J' => 'j',
        'K' => 'k',
        'L' => 'l',
        'M' => 'm',
        'N' => 'n',
        'O' => 'o',
        'P' => 'p',
        'Q' => 'q',
        'R' => 'r',
        'S' => 's',
        'T' => 't',
        'U' => 'u',
        'V' => 'v',
        'W' => 'w',
        'X' => 'x',
        'Y' => 'y',
        'Z' => 'z',
        _ => c,
    }
}

/// A value normalized for indexing and searching.
pub open spec fn normalized(s: Seq<char>) -> Seq<char> {
    s.map(|i: int, c: char| fold_char(c))
}

/// Case-folds one character.
fn fold_char_exec(c: char) -> (res: char)
    ensures
        res == fold_char(c),
{
    match c {
        'A' => 'a',
        'B' => 'b',
        'C' => 'c',
        'D' => 'd',
        'E' => 'e',
        'F' => 'f',
        'G' => 'g',
        'H' => 'h',
        'I' => 'i',
        'J' => 'j',
        'K' => 'k',
        'L' => 'l',
        'M' => 'm',
        'N' => 'n',
        'O' => 'o',
        'P' => 'p',
        'Q' => 'q',
        'R' => 'r',
        'S' => 's',
        'T' => 't',
        'U' => 'u',
        'V' => 'v',
        'W' => 'w',
        'X' => 'x',
        'Y' => 'y',
        'Z' => 'z',
        _ => c,
    }
}

/// Normalizes a value for indexing and searching.
pub fn normalize(v: &String) -> (res: String)
    ensures
        res@ == normalized(v@),
{
    let s = v.as_str();
    let n = s.unicode_len();
    let mut out: Vec<char> = Vec::new();
    proof {
        assert(out@ =~= normalized(v@).take(0));
    }
    for i in 0..n
        invariant
            n == v@.len(),
            s@ == v@,
            out@ == normalized(v@).take(i as int),
    {
        let c = s.get_char(i);
        out.push(fold_char_exec(c));
        proof {
            assert(out@ =~= normalized(v@).take(i as int + 1));
        }
    }
    proof {
        assert(normalized(v@).take(n as int) =~= normalized(v@));
    }
    chars_to_string(&out)
}

/// Adds a key to a key set: no effect when it is already present.
pub open spec fn add_key(ks: Seq<Seq<char>>, k: Seq<char>) -> Seq<Seq<char>> {
    if ks.contains(k) {
        ks
    } else {
        ks.push(k)
    }
}

/// Whether an entry is the slot for `(f, v)`.
pub open spec fn entry_matches(e: EntryV, f: Seq<char>, v: Seq<char>) -> bool {
    e.field == f && e.value == v
}

/// Records `key` under `(f, v)`: the first matching entry gains the key
/// (at most once), or a new entry is appended.
pub open spec fn add_to_index(
    idx: Seq<EntryV>,
    f: Seq<char>,
    v: Seq<char>,
    key: Seq<char>,
) -> Seq<EntryV>
    decreases idx.len(),
{
    if idx.len() == 0 {
        seq![EntryV { field: f, value: v, keys: seq![key] }]
    } else if entry_matches(idx[0], f, v) {
        seq![EntryV { field: f, value: v, keys: add_key(idx[0].keys, key) }] + idx.drop_first()
    } else {
        seq![idx[0]] + add_to_index(idx.drop_first(), f, v, key)
    }
}

/// Indexes one node's values for the searchable field names in `names`,
/// in order.  A name the payload lacks indexes nothing.
pub open spec fn add_fields(
    idx: Seq<EntryV>,
    names: Seq<String>,
    payload: Seq<FieldValue>,
    key: Seq<char>,
) -> Seq<EntryV>
    decreases names.len(),
{
    if names.len() == 0 {
        idx
    } else {
        let prev = add_fields(idx, names.drop_last(), payload, key);
        match lookup_field(payload, names.last()@) {
            Some(v) => add_to_index(prev, names.last()@, normalized(v), key),
            None => prev,
        }
    }
}

/// Indexes one node under its type's searchable fields.
pub open spec fn add_node(idx: Seq<EntryV>, node: NodeV, reg: Registry) -> Seq<EntryV> {
    match lookup_spec(reg.specs@, node.type_tag) {
        Some(ts) => add_fields(idx, ts.searchable_fields@, node.payload, node.key),
        None => idx,
    }
}

/// The search index of a whole table, nodes indexed in table order.
pub open spec fn spec_index(nodes: Seq<NodeV>, reg: Registry) -> Seq<EntryV>
    decreases nodes.len(),
{
    if nodes.len() == 0 {
        Seq::empty()
    } else {
        add_node(spec_index(nodes.drop_last(), reg), nodes.last(), reg)
    }
}

/// The keys recorded under the first entry for `(f, v)`; empty when no
/// entry matches.
pub open spec fn exact_keys(idx: Seq<EntryV>, f: Seq<char>, v: Seq<char>) -> Seq<Seq<char>>
    decreases idx.len(),
{
    if idx.len() == 0 {
        Seq::empty()
    } else if entry_matches(idx[0], f, v) {
        idx[0].keys
    } else {
        exact_keys(idx.drop_first(), f, v)
    }
}

/// Whether `needle` occurs inside `hay` as a contiguous run.
pub open spec fn is_substring(needle: Seq<char>, hay: Seq<char>) -> bool {
    exists|k: int|
        0 <= k && k + needle.len() <= hay.len() && #[trigger] hay.subrange(k, k + needle.len())
            == needle
}

/// Adds every key of `ks`, in order, keeping set semantics.
pub open spec fn add_all_keys(acc: Seq<Seq<char>>, ks: Seq<Seq<char>>) -> Seq<Seq<char>>
    decreases ks.len(),
{
    if ks.len() == 0 {
        acc
    } else {
        add_key(add_all_keys(acc, ks.drop_last()), ks.last())
    }
}

/// The union of the key sets of every entry for field `f` whose value
/// contains `q`, in index order, each key at most once.
pub open spec fn substring_keys(idx: Seq<EntryV>, f: Seq<char>, q: Seq<char>) -> Seq<Seq<char>>
    decreases idx.len(),
{
    if idx.len() == 0 {
        Seq::empty()
    } else {
        let prev = substring_keys(idx.drop_last(), f, q);
        let e = idx.last();
        if e.field == f && is_substring(q, e.value) {
            add_all_keys(prev, e.keys)
        } else {
            prev
        }
    }
}

/// Whether some string of `v` reads `s`.
fn vec_contains_string(v: &Vec<String>, s: &String) -> (res: bool)
    ensures
        res == string_views(v@).contains(s@),
{
    let n = v.len();
    for i in 0..n
        invariant
            n == v@.len(),
            forall|j: int| 0 <= j < i ==> v@[j]@ != s@,
    {
        if v[i] == *s {
            proof {
                assert(string_views(v@)[i as int] == s@);
            }
            return true;
        }
    }
    proof {
        assert forall|j: int| 0 <= j < string_views(v@).len() implies string_views(v@)[j]
            != s@ by {
            assert(v@[j]@ != s@);
        }
    }
    false
}

/// Adding a key where the first match sits at position `i` updates just
/// that entry.
proof fn lemma_add_found(idx: Seq<EntryV>, f: Seq<char>, v: Seq<char>, key: Seq<char>, i: int)
    requires
        0 <= i < idx.len(),
        forall|j: int| 0 <= j < i ==> !entry_matches(idx[j], f, v),
        entry_matches(idx[i], f, v),
    ensures
        add_to_index(idx, f, v, key) == idx.update(
            i,
            EntryV { field: f, value: v, keys: add_key(idx[i].keys, key) },
        ),
    decreases i,
{
    let e = EntryV { field: f, value: v, keys: add_key(idx[i].keys, key) };
    if i == 0 {
        assert(seq![e] + idx.drop_first() =~= idx.update(0, e));
    } else {
        assert forall|j: int| 0 <= j < i - 1 implies !entry_matches(idx.drop_first()[j], f, v) by {
            assert(idx.drop_first()[j] == idx[j + 1]);
        }
        assert(idx.drop_first()[i - 1] == idx[i]);
        lemma_add_found(idx.drop_first(), f, v, key, i - 1);
        assert(seq![idx[0]] + idx.drop_first().update(i - 1, e) =~= idx.update(i, e));
    }
}

/// Adding a key for a pair no entry matches appends a fresh entry.
proof fn lemma_add_missing(idx: Seq<EntryV>, f: Seq<char>, v: Seq<char>, key: Seq<char>)
    requires
        forall|j: int| 0 <= j < idx.len() ==> !entry_matches(idx[j], f, v),
    ensures
        add_to_index(idx, f, v, key) == idx.push(EntryV { field: f, value: v, keys: seq![key] }),
    decreases idx.len(),
{
    let e = EntryV { field: f, value: v, keys: seq![key] };
    if idx.len() == 0 {
        assert(seq![e] =~= idx.push(e));
    } else {
        assert forall|j: int|
            0 <= j < idx.drop_first().len() implies !entry_matches(idx.drop_first()[j], f, v) by {
            assert(idx.drop_first()[j] == idx[j + 1]);
        }
        lemma_add_missing(idx.drop_first(), f, v, key);
        assert(seq![idx[0]] + idx.drop_first().push(e) =~= idx.push(e));
    }
}

/// Records `key` under `(f, v)` in the entry table.
fn index_add(entries: &mut Vec<IndexEntry>, f: &String, v: &String, key: &String)
    ensures
        entries_view(final(entries)@) == add_to_index(entries_view(old(entries)@), f@, v@, key@),
{
    let n = entries.len();
    for i in 0..n
        invariant
            n == entries@.len(),
            entries@ == old(entries)@,
            forall|j: int| 0 <= j < i ==> !entry_matches(entries_view(entries@)[j], f@, v@),
    {
        if entries[i].field == *f && entries[i].value == *v {
            proof {
                assert(entry_matches(entries_view(entries@)[i as int], f@, v@));
            }
            let already = vec_contains_string(&entries[i].keys, key);
            if !already {
                entries[i].keys.push(key.clone());
            }
            proof {
                let oldv = entries_view(old(entries)@);
                lemma_add_found(oldv, f@, v@, key@, i as int);
                assert(string_views(entries@[i as int].keys@) =~= add_key(
                    oldv[i as int].keys,
                    key@,
                ));
                assert(entries_view(entries@) =~= oldv.update(
                    i as int,
                    EntryV { field: f@, value: v@, keys: add_key(oldv[i as int].keys, key@) },
                ));
            }
            return;
        }
    }
    let mut new_keys: Vec<String> = Vec::new();
    new_keys.push(key.clone());
    proof {
        assert(string_views(new_keys@) =~= seq![key@]);
    }
    entries.push(IndexEntry { field: f.clone(), value: v.clone(), keys: new_keys });
    proof {
        lemma_add_missing(entries_view(old(entries)@), f@, v@, key@);
        assert(entries_view(entries@) =~= entries_view(old(entries)@).push(
            EntryV { field: f@, value: v@, keys: seq![key@] },
        ));
    }
}

/// Indexes one node under its type's searchable fields.
fn index_node_exec(entries: &mut Vec<IndexEntry>, node: &FlatNode, reg: &Registry)
    ensures
        entries_view(final(entries)@) == add_node(entries_view(old(entries)@), node@, *reg),
{
    let found = reg.get_spec(node.type_tag);
    match found {
        None => {},
        Some(ts) => {
            let m = ts.searchable_fields.len();
            proof {
                assert(ts.searchable_fields@.take(0) =~= Seq::<String>::empty());
            }
            for j in 0..m
                invariant
                    m == ts.searchable_fields@.len(),
                    lookup_spec(reg.specs@, node@.type_tag) == Some(*ts),
                    entries_view(entries@) == add_fields(
                        entries_view(old(entries)@),
                        ts.searchable_fields@.take(j as int),
                        node@.payload,
                        node@.key,
                    ),
            {
                let fname = &ts.searchable_fields[j];
                match find_field(&node.payload, fname) {
                    Some(val) => {
                        let nv = normalize(val);
                        index_add(entries, fname, &nv, &node.key);
                    },
                    None => {},
                }
                proof {
                    assert(ts.searchable_fields@.take(j as int + 1).drop_last()
                        =~= ts.searchable_fields@.take(j as int));
                    assert(ts.searchable_fields@.take(j as int + 1).last()
                        == ts.searchable_fields@[j as int]);
                }
            }
            proof {
                assert(ts.searchable_fields@.take(m as int) =~= ts.searchable_fields@);
            }
        },
    }
}

/// Builds the search index of a flat node table: every node, in table
/// order, indexed under every searchable field of its type.
pub fn build_index(table: &Vec<FlatNode>, reg: &Registry) -> (res: Vec<IndexEntry>)
    ensures
        entries_view(res@) == spec_index(nodes_view(table@), *reg),
{
    let mut entries: Vec<IndexEntry> = Vec::new();
    let n = table.len();
    proof {
        assert(entries_view(entries@) =~= Seq::<EntryV>::empty());
        assert(nodes_view(table@).take(0) =~= Seq::<NodeV>::empty());
    }
    for i in 0..n
        invariant
            n == table@.len(),
            entries_view(entries@) == spec_index(nodes_view(table@).take(i as int), *reg),
    {
        index_node_exec(&mut entries, &table[i], reg);
        proof {
            assert(nodes_view(table@).take(i as int + 1).drop_last() =~= nodes_view(
                table@,
            ).take(i as int));
            assert(nodes_view(table@).take(i as int + 1).last() == nodes_view(table@)[i as int]);
        }
    }
    proof {
        assert(nodes_view(table@).take(n as int) =~= nodes_view(table@));
    }
    entries
}

/// Copies a key list.
pub(crate) fn clone_strings(v: &Vec<String>) -> (res: Vec<String>)
    ensures
        res@ == v@,
{
    let mut res: Vec<String> = Vec::new();
    let n = v.len();
    for i in 0..n
        invariant
            n == v@.len(),
            res@ =~= v@.take(i as int),
    {
        res.push(v[i].clone());
        proof {
            assert(res@ =~= v@.take(i as int + 1));
        }
    }
    proof {
        assert(v@.take(n as int) =~= v@);
    }
    res
}

/// The keys under the first entry for `(field, value)`, both already
/// normalized; empty when the pair was never indexed.
pub fn search_exact_in(entries: &Vec<IndexEntry>, field: &String, value: &String) -> (res: Vec<
    String,
>)
    ensures
        string_views(res@) == exact_keys(entries_view(entries@), field@, value@),
{
    let n = entries.len();
    proof {
        assert(entries_view(entries@).skip(0) =~= entries_view(entries@));
    }
    for i in 0..n
        invariant
            n == entries@.len(),
            exact_keys(entries_view(entries@), field@, value@) == exact_keys(
                entries_view(entries@).skip(i as int),
                field@,
                value@,
            ),
    {
        proof {
            assert(entries_view(entries@).skip(i as int)[0] == entries_view(entries@)[i as int]);
        }
        if entries[i].field == *field && entries[i].value == *value {
            return clone_strings(&entries[i].keys);
        }
        proof {
            assert(entries_view(entries@).skip(i as int).drop_first() =~= entries_view(
                entries@,
            ).skip(i as int + 1));
        }
    }
    proof {
        assert(entries_view(entries@).skip(n as int) =~= Seq::<EntryV>::empty());
        assert(string_views(Seq::<String>::empty()) =~= Seq::<Seq<char>>::empty());
    }
    Vec::new()
}

/// Whether the characters of `needle` occur contiguously in `hay`.
pub fn contains_substring(hay: &String, needle: &String) -> (res: bool)
    ensures
        res == is_substring(needle@, hay@),
{
    let h = hay.as_str();
    let nl = needle.as_str();
    let hn = h.unicode_len();
    let nn = nl.unicode_len();
    if nn > hn {
        return false;
    }
    let mut k: usize = 0;
    while k <= hn - nn
        invariant
            nn <= hn,
            hn == hay@.len(),
            nn == needle@.len(),
            h@ == hay@,
            nl@ == needle@,
            k <= hn - nn + 1,
            forall|k2: int|
                0 <= k2 < k ==> #[trigger] hay@.subrange(k2, k2 + needle@.len() as int)
                    != needle@,
        decreases hn - nn + 1 - k,
    {
        let mut ok = true;
        for j in 0..nn
            invariant
                nn <= hn,
                hn == hay@.len(),
                nn == needle@.len(),
                h@ == hay@,
                nl@ == needle@,
                k + nn <= hn,
                ok <==> (forall|j2: int| 0 <= j2 < j ==> hay@[k + j2] == needle@[j2]),
        {
            let c1 = h.get_char(k + j);
            let c2 = nl.get_char(j);
            ok = ok && (c1 == c2);
        }
        if ok {
            proof {
                assert(hay@.subrange(k as int, k as int + needle@.len() as int) =~= needle@);
            }
            return true;
        }
        k = k + 1;
    }
    proof {
        assert forall|k2: int|
            0 <= k2 && k2 + needle@.len() <= hay@.len() implies #[trigger] hay@.subrange(
            k2,
            k2 + needle@.len() as int,
        ) != needle@ by {
            assert(k2 < k);
        }
    }
    false
}

/// The keys of every entry for `field` whose value contains `value`,
/// in index order, each key at most once.  Both strings are expected
/// already normalized.
pub fn search_substring_in(entries: &Vec<IndexEntry>, field: &String, value: &String) -> (res: Vec<
    String,
>)
    ensures
        string_views(res@) == substring_keys(entries_view(entries@), field@, value@),
{
    let mut res: Vec<String> = Vec::new();
    let n = entries.len();
    proof {
        assert(string_views(res@) =~= Seq::<Seq<char>>::empty());
        assert(entries_view(entries@).take(0) =~= Seq::<EntryV>::empty());
    }
    for i in 0..n
        invariant
            n == entries@.len(),
            string_views(res@) == substring_keys(
                entries_view(entries@).take(i as int),
                field@,
                value@,
            ),
    {
        let ghost prev = substring_keys(entries_view(entries@).take(i as int), field@, value@);
        proof {
            assert(entries_view(entries@).take(i as int + 1).drop_last() =~= entries_view(
                entries@,
            ).take(i as int));
            assert(entries_view(entries@).take(i as int + 1).last() == entries_view(
                entries@,
            )[i as int]);
        }
        if entries[i].field == *field && contains_substring(&entries[i].value, value) {
            let m = entries[i].keys.len();
            proof {
                assert(string_views(entries@[i as int].keys@).take(0) =~= Seq::<
                    Seq<char>,
                >::empty());
            }
            for j in 0..m
                invariant
                    n == entries@.len(),
                    i < n,
                    m == entries@[i as int].keys@.len(),
                    prev == substring_keys(
                        entries_view(entries@).take(i as int),
                        field@,
                        value@,
                    ),
                    string_views(res@) == add_all_keys(
                        prev,
                        string_views(entries@[i as int].keys@).take(j as int),
                    ),
            {
                let k = &entries[i].keys[j];
                let already = vec_contains_string(&res, k);
                if !already {
                    res.push(k.clone());
                }
                proof {
                    let ks = string_views(entries@[i as int].keys@);
                    assert(ks.take(j as int + 1).drop_last() =~= ks.take(j as int));
                    assert(ks.take(j as int + 1).last() == ks[j as int]);
                    assert(string_views(res@) =~= add_key(
                        add_all_keys(prev, ks.take(j as int)),
                        ks[j as int],
                    ));
                }
            }
            proof {
                let ks = string_views(entries@[i as int].keys@);
                assert(ks.take(m as int) =~= ks);
                assert(entries_view(entries@)[i as int].keys == ks);
            }
        }
    }
    proof {
        assert(entries_view(entries@).take(n as int) =~= entries_view(entries@));
    }
    res
}

} // verus!
