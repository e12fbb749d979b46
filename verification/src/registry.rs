//! Per-type declarations (`TreeSpec`) and their registry, with the eager
//! configuration validation that runs before any flattening.

use vstd::prelude::*;
use crate::record::{has_field, lookup_field, FieldValue, Record};

verus! {

/// The static declaration attached to one record type: which field is the
/// display title, which ordered fields form the uniqueness key, and which
/// fields are searchable.
pub struct TreeSpec {
    /// The record type this declaration belongs to.
    pub type_tag: u64,
    /// The field holding the display label.  Required: a missing title
    /// declaration is a configuration error.
    pub title_field: Option<String>,
    /// Ordered, non-empty list of fields whose values form the key.
    pub key_fields: Vec<String>,
    /// Ordered (possibly empty) list of fields eligible for search.
    pub searchable_fields: Vec<String>,
}

/// The registry of `TreeSpec`s, one per record type, populated once
/// before a build and immutable for the run.
pub struct Registry {
    pub specs: Vec<TreeSpec>,
}

/// A configuration error, found eagerly during validation and never
/// mid-traversal.
#[derive(Debug)]
pub enum ConfigError {
    /// The record type has no title declaration (either no `TreeSpec` at
    /// all, or one without a title field).
    MissingTitle { type_tag: u64 },
    /// The record type declares an empty key field list.
    EmptyKeyFields { type_tag: u64 },
    /// A declared field does not exist on the record.
    UnknownField { type_tag: u64, field: String },
}

/// The first registered `TreeSpec` for `tag`, if any.
pub open spec fn lookup_spec(specs: Seq<TreeSpec>, tag: u64) -> Option<TreeSpec>
    decreases specs.len(),
{
    if specs.len() == 0 {
        None
    } else if specs[0].type_tag == tag {
        Some(specs[0])
    } else {
        lookup_spec(specs.drop_first(), tag)
    }
}

/// The first name in `names` that is not a field of `fields`, if any.
pub open spec fn first_absent_field(names: Seq<String>, fields: Seq<FieldValue>) -> Option<String>
    decreases names.len(),
{
    if names.len() == 0 {
        None
    } else if !has_field(fields, names[0]@) {
        Some(names[0])
    } else {
        first_absent_field(names.drop_first(), fields)
    }
}

/// The configuration error raised by one record against the registry, if
/// any: a missing title declaration, then a title field absent from the
/// record, then an empty key field list, then the first absent key field,
/// then the first absent searchable field.
pub open spec fn record_config_error(r: Record, reg: Registry) -> Option<ConfigError> {
    match lookup_spec(reg.specs@, r.type_tag) {
        None => Some(ConfigError::MissingTitle { type_tag: r.type_tag }),
        Some(s) => match s.title_field {
            None => Some(ConfigError::MissingTitle { type_tag: r.type_tag }),
            Some(t) => if !has_field(r.fields@, t@) {
                Some(ConfigError::UnknownField { type_tag: r.type_tag, field: t })
            } else if s.key_fields@.len() == 0 {
                Some(ConfigError::EmptyKeyFields { type_tag: r.type_tag })
            } else {
                match first_absent_field(s.key_fields@, r.fields@) {
                    Some(f) => Some(ConfigError::UnknownField { type_tag: r.type_tag, field: f }),
                    None => match first_absent_field(s.searchable_fields@, r.fields@) {
                        Some(f) => Some(
                            ConfigError::UnknownField { type_tag: r.type_tag, field: f },
                        ),
                        None => None,
                    },
                }
            },
        },
    }
}

/// The first configuration error in a depth-first walk of the tree rooted
/// at `r`, if any.
pub open spec fn tree_config_error(r: Record, reg: Registry) -> Option<ConfigError>
    decreases r,
{
    match record_config_error(r, reg) {
        Some(e) => Some(e),
        None => children_config_error(r.children@, reg),
    }
}

/// The first configuration error among the trees in `cs`, in order.
pub open spec fn children_config_error(cs: Seq<Record>, reg: Registry) -> Option<ConfigError>
    decreases cs,
{
    if cs.len() == 0 {
        None
    } else {
        match tree_config_error(cs[0], reg) {
            Some(e) => Some(e),
            None => children_config_error(cs.drop_first(), reg),
        }
    }
}

impl Registry {
    /// An empty registry.
    pub fn new() -> (r: Registry)
        ensures
            r.specs@ =~= Seq::<TreeSpec>::empty(),
    {
        Registry { specs: Vec::new() }
    }

    /// Registers one more `TreeSpec`.  Lookups return the first spec
    /// registered for a tag.
    pub fn register(&mut self, s: TreeSpec)
        ensures
            final(self).specs@ == old(self).specs@.push(s),
    {
        self.specs.push(s);
    }

    /// Looks up the `TreeSpec` for a record type.
    pub fn get_spec<'a>(&'a self, tag: u64) -> (res: Option<&'a TreeSpec>)
        ensures
            match res {
                Some(s) => lookup_spec(self.specs@, tag) == Some(*s),
                None => lookup_spec(self.specs@, tag) is None,
            },
    {
        let n = self.specs.len();
        proof {
            assert(self.specs@.skip(0) =~= self.specs@);
        }
        for i in 0..n
            invariant
                n == self.specs@.len(),
                lookup_spec(self.specs@, tag) == lookup_spec(self.specs@.skip(i as int), tag),
        {
            proof {
                assert(self.specs@.skip(i as int)[0] == self.specs@[i as int]);
            }
            if self.specs[i].type_tag == tag {
                return Some(&self.specs[i]);
            }
            proof {
                assert(self.specs@.skip(i as int).drop_first() =~= self.specs@.skip(i as int + 1));
            }
        }
        proof {
            assert(self.specs@.skip(n as int) =~= Seq::<TreeSpec>::empty());
        }
        None
    }
}

/// Finds the first declared field name in `names` that the record lacks.
fn find_absent_field<'a>(names: &'a Vec<String>, r: &Record) -> (res: Option<&'a String>)
    ensures
        match res {
            Some(f) => first_absent_field(names@, r.fields@) == Some(*f),
            None => first_absent_field(names@, r.fields@) is None,
        },
{
    let n = names.len();
    proof {
        assert(names@.skip(0) =~= names@);
    }
    for i in 0..n
        invariant
            n == names@.len(),
            first_absent_field(names@, r.fields@) == first_absent_field(
                names@.skip(i as int),
                r.fields@,
            ),
    {
        proof {
            assert(names@.skip(i as int)[0] == names@[i as int]);
        }
        match r.get_field(&names[i]) {
            None => {
                return Some(&names[i]);
            },
            Some(_) => {},
        }
        proof {
            assert(names@.skip(i as int).drop_first() =~= names@.skip(i as int + 1));
        }
    }
    proof {
        assert(names@.skip(n as int) =~= Seq::<String>::empty());
    }
    None
}

/// Validates one record against the registry: its type must have a
/// `TreeSpec` with a title declaration, the title field must exist on the
/// record, the key field list must be non-empty, and every declared key
/// or searchable field must exist on the record.
pub fn validate_record(r: &Record, reg: &Registry) -> (res: Result<(), ConfigError>)
    ensures
        match res {
            Ok(_) => record_config_error(*r, *reg) is None,
            Err(e) => record_config_error(*r, *reg) == Some(e),
        },
{
    let found = reg.get_spec(r.type_tag);
    match found {
        None => Err(ConfigError::MissingTitle { type_tag: r.type_tag }),
        Some(s) => match &s.title_field {
            None => Err(ConfigError::MissingTitle { type_tag: r.type_tag }),
            Some(t) => match r.get_field(t) {
                None => Err(
                    ConfigError::UnknownField { type_tag: r.type_tag, field: t.clone() },
                ),
                Some(_) => if s.key_fields.len() == 0 {
                    Err(ConfigError::EmptyKeyFields { type_tag: r.type_tag })
                } else {
                    match find_absent_field(&s.key_fields, r) {
                        Some(f) => Err(
                            ConfigError::UnknownField { type_tag: r.type_tag, field: f.clone() },
                        ),
                        None => match find_absent_field(&s.searchable_fields, r) {
                            Some(f) => Err(
                                ConfigError::UnknownField {
                                    type_tag: r.type_tag,
                                    field: f.clone(),
                                },
                            ),
                            None => Ok(()),
                        },
                    }
                },
            },
        },
    }
}

/// Validates the whole tree rooted at `r`, depth first, returning the
/// first configuration error found, before any flattening starts.
pub fn validate_tree(r: &Record, reg: &Registry) -> (res: Result<(), ConfigError>)
    ensures
        match res {
            Ok(_) => tree_config_error(*r, *reg) is None,
            Err(e) => tree_config_error(*r, *reg) == Some(e),
        },
    decreases *r,
{
    match validate_record(r, reg) {
        Err(e) => {
            return Err(e);
        },
        Ok(_) => {},
    }
    let n = r.children.len();
    proof {
        assert(r.children@.skip(0) =~= r.children@);
    }
    for i in 0..n
        invariant
            n == r.children@.len(),
            record_config_error(*r, *reg) is None,
            children_config_error(r.children@, *reg) == children_config_error(
                r.children@.skip(i as int),
                *reg,
            ),
    {
        proof {
            assert(r.children@.skip(i as int)[0] == r.children@[i as int]);
        }
        match validate_tree(&r.children[i], reg) {
            Err(e) => {
                return Err(e);
            },
            Ok(_) => {},
        }
        proof {
            assert(r.children@.skip(i as int).drop_first() =~= r.children@.skip(i as int + 1));
        }
    }
    proof {
        assert(r.children@.skip(n as int) =~= Seq::<Record>::empty());
    }
    Ok(())
}

} // verus!
