//! The Key Deriver: a pure function from the ordered key field values of
//! a record to its single string key.
//!
//! Values are joined with `|`.  Every `|` or `\` inside a value is
//! escaped with a leading `\` first, so a delimiter inside a value can
//! never be mistaken for the join: two different (non-empty) value lists
//! always derive different keys, which `lemma_derived_key_injective`
//! proves.

use vstd::prelude::*;
use vstd::string::StrSliceExecFns;
use crate::record::{field_value_or_empty, FieldValue, Record};
use crate::registry::{first_absent_field, lookup_spec, record_config_error, Registry, TreeSpec};

verus! {

/// How one character appears inside an escaped key field value.
pub open spec fn escaped_char(c: char) -> Seq<char> {
    if c == '|' || c == '\\' {
        seq!['\\', c]
    } else {
        seq![c]
    }
}

/// A value with every delimiter and escape character escaped.
pub open spec fn escaped(s: Seq<char>) -> Seq<char>
    decreases s.len(),
{
    if s.len() == 0 {
        Seq::empty()
    } else {
        escaped(s.drop_last()) + escaped_char(s.last())
    }
}

/// The derived key: the escaped values joined with `|`.
pub open spec fn derived_key(vals: Seq<Seq<char>>) -> Seq<char>
    decreases vals.len(),
{
    if vals.len() == 0 {
        Seq::empty()
    } else if vals.len() == 1 {
        escaped(vals[0])
    } else {
        derived_key(vals.drop_last()) + seq!['|'] + escaped(vals.last())
    }
}

/// The views of a list of strings.
pub open spec fn string_views(vs: Seq<String>) -> Seq<Seq<char>> {
    vs.map(|i: int, v: String| v@)
}

/// The ordered values of a record's key fields (empty for a field the
/// record lacks; validation rules that case out before flattening).
pub open spec fn record_key_values(r: Record, ts: TreeSpec) -> Seq<Seq<char>> {
    ts.key_fields@.map(|i: int, f: String| field_value_or_empty(r.fields@, f@))
}

/// The key of a record under the registry.  Records whose type has no
/// registered `TreeSpec` get the empty key; validation rules them out.
pub open spec fn key_of(r: Record, reg: Registry) -> Seq<char> {
    match lookup_spec(reg.specs@, r.type_tag) {
        Some(ts) => derived_key(record_key_values(r, ts)),
        None => Seq::empty(),
    }
}

/// Relies on `String::from_iter` over `char`: collecting characters in
/// order yields the string holding exactly those characters.
#[verifier::external_body]
pub(crate) fn chars_to_string(cs: &Vec<char>) -> (res: String)
    ensures
        res@ == cs@,
{
    cs.iter().collect()
}

/// Appends the escaped form of `v` to `out`.
fn push_escaped(out: &mut Vec<char>, v: &String)
    ensures
        final(out)@ == old(out)@ + escaped(v@),
{
    let s = v.as_str();
    let n = s.unicode_len();
    proof {
        assert(v@.take(0) =~= Seq::<char>::empty());
        assert(out@ + escaped(v@.take(0)) =~= out@);
    }
    for j in 0..n
        invariant
            n == v@.len(),
            s@ == v@,
            out@ == old(out)@ + escaped(v@.take(j as int)),
    {
        let c = s.get_char(j);
        if c == '|' || c == '\\' {
            out.push('\\');
            out.push(c);
        } else {
            out.push(c);
        }
        proof {
            assert(v@.take(j as int + 1).drop_last() =~= v@.take(j as int));
            assert(v@.take(j as int + 1).last() == v@[j as int]);
            assert(out@ =~= old(out)@ + escaped(v@.take(j as int + 1)));
        }
    }
    proof {
        assert(v@.take(n as int) =~= v@);
    }
}

/// Derives the key string from the ordered, already-stringified key
/// field values.  A pure function: identical value lists always produce
/// the identical key.
pub fn derive_key(values: &Vec<String>) -> (key: String)
    ensures
        key@ == derived_key(string_views(values@)),
{
    let mut out: Vec<char> = Vec::new();
    let n = values.len();
    for i in 0..n
        invariant
            n == values@.len(),
            out@ == derived_key(string_views(values@).take(i as int)),
    {
        if i > 0 {
            out.push('|');
        }
        push_escaped(&mut out, &values[i]);
        proof {
            let sv = string_views(values@);
            assert(sv.take(i as int + 1).drop_last() =~= sv.take(i as int));
            assert(sv.take(i as int + 1).last() == sv[i as int]);
            assert(sv[i as int] == values@[i as int]@);
            if i == 0 {
                assert(out@ =~= derived_key(sv.take(1)));
            } else {
                assert(out@ =~= derived_key(sv.take(i as int)) + seq!['|'] + escaped(
                    sv[i as int],
                ));
            }
        }
    }
    proof {
        assert(string_views(values@).take(n as int) =~= string_views(values@));
    }
    chars_to_string(&out)
}

/// Every name in `names` is a field of `fields` when none is absent.
pub proof fn lemma_first_absent_none(names: Seq<String>, fields: Seq<FieldValue>)
    requires
        first_absent_field(names, fields) is None,
    ensures
        forall|i: int|
            0 <= i < names.len() ==> crate::record::has_field(fields, names[i]@),
    decreases names.len(),
{
    if names.len() > 0 {
        lemma_first_absent_none(names.drop_first(), fields);
        assert forall|i: int|
            0 <= i < names.len() implies crate::record::has_field(fields, names[i]@) by {
            if i > 0 {
                assert(names.drop_first()[i - 1] == names[i]);
            }
        }
    }
}

/// How a derived key reads back into value pieces: a character after a
/// `\` is taken literally, a bare `|` ends the current value.  Only the
/// injectivity proof uses this.
spec fn unjoin(s: Seq<char>, cur: Seq<char>, acc: Seq<Seq<char>>) -> Seq<Seq<char>>
    decreases s.len(),
{
    if s.len() == 0 {
        acc.push(cur)
    } else if s[0] == '\\' && s.len() >= 2 {
        unjoin(s.skip(2), cur.push(s[1]), acc)
    } else if s[0] == '|' {
        unjoin(s.drop_first(), Seq::empty(), acc.push(cur))
    } else {
        unjoin(s.drop_first(), cur.push(s[0]), acc)
    }
}

/// `escaped` unrolled from the front.
proof fn lemma_escaped_cons(x: Seq<char>)
    requires
        x.len() > 0,
    ensures
        escaped(x) == escaped_char(x[0]) + escaped(x.drop_first()),
    decreases x.len(),
{
    if x.len() == 1 {
        assert(x.drop_last() =~= Seq::<char>::empty());
        assert(x.drop_first() =~= Seq::<char>::empty());
        assert(escaped(x) =~= escaped_char(x[0]) + escaped(x.drop_first()));
    } else {
        lemma_escaped_cons(x.drop_last());
        assert(x.drop_last()[0] == x[0]);
        assert(x.drop_last().drop_first() =~= x.drop_first().drop_last());
        assert(x.drop_first().last() == x.last());
        assert(escaped(x) =~= escaped_char(x[0]) + escaped(x.drop_first()));
    }
}

/// `derived_key` unrolled from the front.
proof fn lemma_derived_cons(vals: Seq<Seq<char>>)
    requires
        vals.len() >= 2,
    ensures
        derived_key(vals) == escaped(vals[0]) + seq!['|'] + derived_key(vals.drop_first()),
    decreases vals.len(),
{
    if vals.len() == 2 {
        assert(vals.drop_last()[0] == vals[0]);
        assert(vals.drop_first()[0] == vals[1]);
        assert(derived_key(vals.drop_last()) == escaped(vals[0]));
        assert(derived_key(vals.drop_first()) == escaped(vals[1]));
        assert(vals.last() == vals[1]);
        assert(derived_key(vals) =~= escaped(vals[0]) + seq!['|'] + derived_key(
            vals.drop_first(),
        ));
    } else {
        lemma_derived_cons(vals.drop_last());
        assert(vals.drop_last()[0] == vals[0]);
        assert(vals.drop_last().drop_first() =~= vals.drop_first().drop_last());
        assert(vals.drop_first().last() == vals.last());
        assert(derived_key(vals) =~= escaped(vals[0]) + seq!['|'] + derived_key(
            vals.drop_first(),
        ));
    }
}

/// Reading back walks through one escaped value without ever mistaking
/// its characters for the join.
proof fn lemma_unjoin_escaped(x: Seq<char>, rest: Seq<char>, cur: Seq<char>, acc: Seq<Seq<char>>)
    ensures
        unjoin(escaped(x) + rest, cur, acc) == unjoin(rest, cur + x, acc),
    decreases x.len(),
{
    if x.len() == 0 {
        assert(escaped(x) + rest =~= rest);
        assert(cur + x =~= cur);
    } else {
        lemma_escaped_cons(x);
        let s = escaped(x) + rest;
        if x[0] == '|' || x[0] == '\\' {
            assert(s[0] == '\\');
            assert(s[1] == x[0]);
            assert(s.skip(2) =~= escaped(x.drop_first()) + rest);
            lemma_unjoin_escaped(x.drop_first(), rest, cur.push(x[0]), acc);
            assert(cur.push(x[0]) + x.drop_first() =~= cur + x);
        } else {
            assert(s[0] == x[0]);
            assert(s.drop_first() =~= escaped(x.drop_first()) + rest);
            lemma_unjoin_escaped(x.drop_first(), rest, cur.push(x[0]), acc);
            assert(cur.push(x[0]) + x.drop_first() =~= cur + x);
        }
    }
}

/// Reading a derived key back recovers exactly the value list.
proof fn lemma_unjoin_round(vals: Seq<Seq<char>>, acc: Seq<Seq<char>>)
    requires
        vals.len() >= 1,
    ensures
        unjoin(derived_key(vals), Seq::empty(), acc) == acc + vals,
    decreases vals.len(),
{
    if vals.len() == 1 {
        lemma_unjoin_escaped(vals[0], Seq::empty(), Seq::empty(), acc);
        assert(escaped(vals[0]) + Seq::<char>::empty() =~= escaped(vals[0]));
        assert(Seq::<char>::empty() + vals[0] =~= vals[0]);
        assert(acc.push(vals[0]) =~= acc + vals);
    } else {
        lemma_derived_cons(vals);
        let dk1 = derived_key(vals.drop_first());
        lemma_unjoin_escaped(vals[0], seq!['|'] + dk1, Seq::empty(), acc);
        assert(escaped(vals[0]) + (seq!['|'] + dk1) =~= derived_key(vals));
        let s2 = seq!['|'] + dk1;
        assert(s2[0] == '|');
        assert(s2.drop_first() =~= dk1);
        assert(Seq::<char>::empty() + vals[0] =~= vals[0]);
        lemma_unjoin_round(vals.drop_first(), acc.push(vals[0]));
        assert(acc.push(vals[0]) + vals.drop_first() =~= acc + vals);
    }
}

/// The encoding is unambiguous: two different non-empty value lists
/// always derive different keys, so a delimiter occurring inside a
/// field value can never make two key field combinations collide.
pub proof fn lemma_derived_key_injective(v1: Seq<Seq<char>>, v2: Seq<Seq<char>>)
    requires
        v1.len() >= 1,
        v2.len() >= 1,
        derived_key(v1) == derived_key(v2),
    ensures
        v1 == v2,
{
    lemma_unjoin_round(v1, Seq::empty());
    lemma_unjoin_round(v2, Seq::empty());
    assert(Seq::<Seq<char>>::empty() + v1 =~= v1);
    assert(Seq::<Seq<char>>::empty() + v2 =~= v2);
}

/// Computes the key of a validated record: the values of its declared
/// key fields, in order, joined by the Key Deriver.
pub fn record_key(r: &Record, reg: &Registry) -> (key: String)
    requires
        record_config_error(*r, *reg) is None,
    ensures
        key@ == key_of(*r, *reg),
{
    let found = reg.get_spec(r.type_tag);
    let ts = match found {
        Some(ts) => ts,
        None => {
            proof {
                assert(false);
            }
            unreached()
        },
    };
    proof {
        lemma_first_absent_none(ts.key_fields@, r.fields@);
    }
    let mut values: Vec<String> = Vec::new();
    let n = ts.key_fields.len();
    for i in 0..n
        invariant
            n == ts.key_fields@.len(),
            forall|j: int|
                0 <= j < n ==> crate::record::has_field(r.fields@, ts.key_fields@[j]@),
            values@.len() == i,
            forall|j: int|
                0 <= j < i ==> values@[j]@ == record_key_values(*r, *ts)[j],
    {
        match r.get_field(&ts.key_fields[i]) {
            Some(v) => {
                values.push(v.clone());
            },
            None => {
                proof {
                    assert(false);
                }
            },
        }
    }
    let key = derive_key(&values);
    proof {
        assert(string_views(values@) =~= record_key_values(*r, *ts));
    }
    key
}

} // verus!
