//! The source data model: a tree of heterogeneous records.
//!
//! Every record carries a `type_tag` naming its record type, a list of
//! named, already-stringified field values, and its child records in
//! source order.  Because children are held by value, a `Record` is a
//! true tree: no record can be reachable from itself.

use vstd::prelude::*;

verus! {

/// One named field of a record, with its value already rendered as text
/// by the record type's own formatting rules.
#[derive(Clone, Debug)]
pub struct FieldValue {
    pub name: String,
    pub value: String,
}

/// A record in the source tree.
pub struct Record {
    /// Identifies which record type this record belongs to; the registry
    /// maps it to the type's `TreeSpec`.
    pub type_tag: u64,
    /// The record's fields, in declaration order.
    pub fields: Vec<FieldValue>,
    /// Direct child records, in source order.  Children of different
    /// record types may be mixed freely.
    pub children: Vec<Record>,
}

/// The value of the first field named `name`, if any.
pub open spec fn lookup_field(fields: Seq<FieldValue>, name: Seq<char>) -> Option<Seq<char>>
    decreases fields.len(),
{
    if fields.len() == 0 {
        None
    } else if fields[0].name@ == name {
        Some(fields[0].value@)
    } else {
        lookup_field(fields.drop_first(), name)
    }
}

/// Whether some field of the record is named `name`.
pub open spec fn has_field(fields: Seq<FieldValue>, name: Seq<char>) -> bool {
    lookup_field(fields, name) is Some
}

/// The value of the field named `name`, or the empty string where the
/// record has no such field.
pub open spec fn field_value_or_empty(fields: Seq<FieldValue>, name: Seq<char>) -> Seq<char> {
    match lookup_field(fields, name) {
        Some(v) => v,
        None => Seq::empty(),
    }
}

/// Looks up the value of the first field named `name` in a field list.
pub fn find_field<'a>(fields: &'a Vec<FieldValue>, name: &String) -> (res: Option<&'a String>)
    ensures
        match res {
            Some(v) => lookup_field(fields@, name@) == Some(v@),
            None => lookup_field(fields@, name@) is None,
        },
{
    let n = fields.len();
    proof {
        assert(fields@.skip(0) =~= fields@);
    }
    for i in 0..n
        invariant
            n == fields@.len(),
            lookup_field(fields@, name@) == lookup_field(fields@.skip(i as int), name@),
    {
        proof {
            assert(fields@.skip(i as int)[0] == fields@[i as int]);
        }
        if fields[i].name == *name {
            return Some(&fields[i].value);
        }
        proof {
            assert(fields@.skip(i as int).drop_first() =~= fields@.skip(i as int + 1));
        }
    }
    proof {
        assert(fields@.skip(n as int) =~= Seq::<FieldValue>::empty());
    }
    None
}

impl Record {
    /// Looks up the value of the first field named `name`.
    pub fn get_field<'a>(&'a self, name: &String) -> (res: Option<&'a String>)
        ensures
            match res {
                Some(v) => lookup_field(self.fields@, name@) == Some(v@),
                None => lookup_field(self.fields@, name@) is None,
            },
    {
        find_field(&self.fields, name)
    }
}

} // verus!
