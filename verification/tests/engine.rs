use flatten_tree::{
    BoundNode, BuildError, ConfigError, FieldValue, FlattenError, FlattenTreeNodeExt, Record,
    Registry, SearchMode, SimpleFastTreeNode, Snapshot, TreeSpec,
};

fn fv(name: &str, value: &str) -> FieldValue {
    FieldValue { name: name.to_string(), value: value.to_string() }
}

fn spec_for(
    tag: u64,
    title: Option<&str>,
    key_fields: &[&str],
    searchable: &[&str],
) -> TreeSpec {
    TreeSpec {
        type_tag: tag,
        title_field: title.map(|t| t.to_string()),
        key_fields: key_fields.iter().map(|f| f.to_string()).collect(),
        searchable_fields: searchable.iter().map(|f| f.to_string()).collect(),
    }
}

fn build(root: &Record, reg: &Registry) -> Result<Snapshot, BuildError> {
    flatten_tree::snapshot::build_snapshot(root, reg)
}

fn keys_of(snap: &Snapshot) -> Vec<String> {
    snap.nodes.iter().map(|n| n.key.clone()).collect()
}

#[test]
fn build_from_tree_like_vec() {
    let mut reg = Registry::new();
    reg.register(spec_for(1, Some("name"), &["name"], &["address", "ceo"]));
    let test_company = Record {
        type_tag: 1,
        fields: vec![
            fv("name", "Facebook .Inc"),
            fv("address", "US"),
            fv("ceo", "Mark"),
        ],
        children: vec![],
    };
    let snap = build(&test_company, &reg).unwrap();
    assert_eq!(snap.node_count(), 1);
    assert_eq!(snap.nodes[0].key, "Facebook .Inc");
    assert_eq!(snap.nodes[0].title, "Facebook .Inc");
    let hit = snap.search(
        &"ceo".to_string(),
        &"Mark".to_string(),
        SearchMode::Exact,
    );
    assert_eq!(hit, vec!["Facebook .Inc".to_string()]);
}

#[test]
fn three_level_scenario() {
    let mut reg = Registry::new();
    reg.register(spec_for(1, Some("name"), &["name"], &["address"]));
    reg.register(spec_for(2, Some("name"), &["name"], &[]));
    let root = Record {
        type_tag: 1,
        fields: vec![fv("name", "Acme"), fv("address", "1 Main St")],
        children: vec![Record {
            type_tag: 2,
            fields: vec![fv("name", "Eng"), fv("manager", "Bo")],
            children: vec![],
        }],
    };
    let snap = build(&root, &reg).unwrap();
    assert_eq!(snap.node_count(), 2);
    assert_eq!(keys_of(&snap), vec!["Acme".to_string(), "Eng".to_string()]);
    let acme = snap.get_by_key(&"Acme".to_string()).unwrap();
    assert_eq!(acme.child_keys, vec!["Eng".to_string()]);
    let hit = snap.search(
        &"address".to_string(),
        &"1 main st".to_string(),
        SearchMode::Exact,
    );
    assert_eq!(hit, vec!["Acme".to_string()]);
}

#[test]
fn duplicate_keys_fail() {
    let mut reg = Registry::new();
    reg.register(spec_for(1, Some("name"), &["name"], &[]));
    let root = Record {
        type_tag: 1,
        fields: vec![fv("name", "R")],
        children: vec![
            Record { type_tag: 1, fields: vec![fv("name", "X")], children: vec![] },
            Record { type_tag: 1, fields: vec![fv("name", "X")], children: vec![] },
        ],
    };
    let res = build(&root, &reg);
    match res {
        Err(BuildError::Flatten(FlattenError::DuplicateKey { key })) => {
            assert_eq!(key, "X");
        }
        _ => panic!("expected a duplicate key failure"),
    }
}

#[test]
fn empty_child_collection() {
    let mut reg = Registry::new();
    reg.register(spec_for(1, Some("name"), &["name"], &[]));
    let root = Record { type_tag: 1, fields: vec![fv("name", "Solo")], children: vec![] };
    let snap = build(&root, &reg).unwrap();
    assert_eq!(snap.node_count(), 1);
    let node = snap.get_by_key(&"Solo".to_string()).unwrap();
    assert!(node.child_keys.is_empty());
    assert_eq!(node.depth, 0);
    assert!(node.parent_key.is_none());
}

#[test]
fn missing_title_is_config_error() {
    let mut reg = Registry::new();
    reg.register(spec_for(1, None, &["name"], &[]));
    let root = Record { type_tag: 1, fields: vec![fv("name", "A")], children: vec![] };
    match build(&root, &reg) {
        Err(BuildError::Config(ConfigError::MissingTitle { type_tag })) => {
            assert_eq!(type_tag, 1);
        }
        _ => panic!("expected a missing title error"),
    }
}

#[test]
fn unregistered_type_is_config_error() {
    let reg = Registry::new();
    let root = Record { type_tag: 9, fields: vec![fv("name", "A")], children: vec![] };
    match build(&root, &reg) {
        Err(BuildError::Config(ConfigError::MissingTitle { type_tag })) => {
            assert_eq!(type_tag, 9);
        }
        _ => panic!("expected a missing title error"),
    }
}

#[test]
fn empty_key_fields_is_config_error() {
    let mut reg = Registry::new();
    reg.register(spec_for(1, Some("name"), &[], &[]));
    let root = Record { type_tag: 1, fields: vec![fv("name", "A")], children: vec![] };
    match build(&root, &reg) {
        Err(BuildError::Config(ConfigError::EmptyKeyFields { type_tag })) => {
            assert_eq!(type_tag, 1);
        }
        _ => panic!("expected an empty key fields error"),
    }
}

#[test]
fn unknown_field_is_config_error() {
    let mut reg = Registry::new();
    reg.register(spec_for(1, Some("name"), &["serial"], &[]));
    let root = Record { type_tag: 1, fields: vec![fv("name", "A")], children: vec![] };
    match build(&root, &reg) {
        Err(BuildError::Config(ConfigError::UnknownField { type_tag, field })) => {
            assert_eq!(type_tag, 1);
            assert_eq!(field, "serial");
        }
        _ => panic!("expected an unknown field error"),
    }
}

#[test]
fn config_errors_found_before_traversal() {
    // The duplicate key sits earlier in the walk than the bad child, but
    // validation runs first, so the config error wins.
    let mut reg = Registry::new();
    reg.register(spec_for(1, Some("name"), &["name"], &[]));
    let root = Record {
        type_tag: 1,
        fields: vec![fv("name", "R")],
        children: vec![
            Record { type_tag: 1, fields: vec![fv("name", "R")], children: vec![] },
            Record { type_tag: 7, fields: vec![fv("name", "B")], children: vec![] },
        ],
    };
    match build(&root, &reg) {
        Err(BuildError::Config(ConfigError::MissingTitle { type_tag })) => {
            assert_eq!(type_tag, 7);
        }
        _ => panic!("expected the config error to be found eagerly"),
    }
}

#[test]
fn key_derivation_joins_and_escapes() {
    let mut reg = Registry::new();
    reg.register(spec_for(1, Some("first"), &["first", "last"], &[]));
    let root = Record {
        type_tag: 1,
        fields: vec![fv("first", "a|b"), fv("last", "c\\d")],
        children: vec![],
    };
    let snap = build(&root, &reg).unwrap();
    // `|` joins the two values; the `|` and `\` inside them are escaped.
    assert_eq!(snap.nodes[0].key, "a\\|b|c\\\\d");
}

#[test]
fn escaping_prevents_false_collisions() {
    // Joined naively with `|`, both children would derive "a|b|c"; the
    // escaping keeps the two field combinations apart.
    let mut reg = Registry::new();
    reg.register(spec_for(1, Some("x"), &["x"], &[]));
    reg.register(spec_for(2, Some("x"), &["x", "y"], &[]));
    let root = Record {
        type_tag: 1,
        fields: vec![fv("x", "root")],
        children: vec![
            Record {
                type_tag: 2,
                fields: vec![fv("x", "a|b"), fv("y", "c")],
                children: vec![],
            },
            Record {
                type_tag: 2,
                fields: vec![fv("x", "a"), fv("y", "b|c")],
                children: vec![],
            },
        ],
    };
    let snap = build(&root, &reg).unwrap();
    assert_eq!(snap.node_count(), 3);
    assert_eq!(snap.nodes[1].key, "a\\|b|c");
    assert_eq!(snap.nodes[2].key, "a|b\\|c");
}

#[test]
fn key_field_order_matters() {
    let mut reg = Registry::new();
    reg.register(spec_for(1, Some("a"), &["a", "b"], &[]));
    reg.register(spec_for(2, Some("a"), &["b", "a"], &[]));
    let fields = vec![fv("a", "x"), fv("b", "y")];
    let r1 = Record { type_tag: 1, fields: fields.clone(), children: vec![] };
    let r2 = Record { type_tag: 2, fields, children: vec![] };
    let s1 = build(&r1, &reg).unwrap();
    let s2 = build(&r2, &reg).unwrap();
    assert_eq!(s1.nodes[0].key, "x|y");
    assert_eq!(s2.nodes[0].key, "y|x");
}

#[test]
fn build_is_deterministic() {
    let mut reg = Registry::new();
    reg.register(spec_for(1, Some("name"), &["name"], &["addr"]));
    reg.register(spec_for(2, Some("name"), &["name"], &[]));
    let root = Record {
        type_tag: 1,
        fields: vec![fv("name", "A"), fv("addr", "Somewhere 5")],
        children: vec![
            Record { type_tag: 2, fields: vec![fv("name", "B")], children: vec![] },
            Record { type_tag: 2, fields: vec![fv("name", "C")], children: vec![] },
        ],
    };
    let s1 = build(&root, &reg).unwrap();
    let s2 = build(&root, &reg).unwrap();
    assert_eq!(keys_of(&s1), keys_of(&s2));
    assert_eq!(
        s1.nodes.iter().map(|n| n.child_keys.clone()).collect::<Vec<_>>(),
        s2.nodes.iter().map(|n| n.child_keys.clone()).collect::<Vec<_>>()
    );
    assert_eq!(s1.entry_count(), s2.entry_count());
    for (e1, e2) in s1.index.iter().zip(s2.index.iter()) {
        assert_eq!(e1.field, e2.field);
        assert_eq!(e1.value, e2.value);
        assert_eq!(e1.keys, e2.keys);
    }
}

#[test]
fn linkage_and_depth() {
    let mut reg = Registry::new();
    reg.register(spec_for(1, Some("name"), &["name"], &[]));
    let leaf = |name: &str| Record {
        type_tag: 1,
        fields: vec![fv("name", name)],
        children: vec![],
    };
    let root = Record {
        type_tag: 1,
        fields: vec![fv("name", "root")],
        children: vec![
            Record {
                type_tag: 1,
                fields: vec![fv("name", "mid")],
                children: vec![leaf("deep")],
            },
            leaf("flat"),
        ],
    };
    let snap = build(&root, &reg).unwrap();
    assert_eq!(
        keys_of(&snap),
        vec!["root".to_string(), "mid".to_string(), "deep".to_string(), "flat".to_string()]
    );
    for node in &snap.nodes {
        match &node.parent_key {
            None => assert_eq!(node.depth, 0),
            Some(p) => {
                let parent = snap.get_by_key(p).unwrap();
                assert_eq!(parent.depth + 1, node.depth);
                let occurrences =
                    parent.child_keys.iter().filter(|k| **k == node.key).count();
                assert_eq!(occurrences, 1);
            }
        }
    }
    let deep = snap.get_by_key(&"deep".to_string()).unwrap();
    assert_eq!(deep.depth, 2);
    let ancestors = snap.get_ancestors(&"deep".to_string());
    let names: Vec<&str> = ancestors.iter().map(|n| n.key.as_str()).collect();
    assert_eq!(names, vec!["mid", "root"]);
    assert!(snap.get_ancestors(&"root".to_string()).is_empty());
    assert!(snap.get_ancestors(&"nowhere".to_string()).is_empty());
}

#[test]
fn get_children_in_source_order() {
    let mut reg = Registry::new();
    reg.register(spec_for(1, Some("name"), &["name"], &[]));
    let leaf = |name: &str| Record {
        type_tag: 1,
        fields: vec![fv("name", name)],
        children: vec![],
    };
    let root = Record {
        type_tag: 1,
        fields: vec![fv("name", "root")],
        children: vec![leaf("b"), leaf("a"), leaf("c")],
    };
    let snap = build(&root, &reg).unwrap();
    let children = snap.get_children(&"root".to_string());
    let names: Vec<&str> = children.iter().map(|n| n.key.as_str()).collect();
    assert_eq!(names, vec!["b", "a", "c"]);
    assert!(snap.get_children(&"a".to_string()).is_empty());
    assert!(snap.get_children(&"nowhere".to_string()).is_empty());
}

#[test]
fn search_substring_and_case_folding() {
    let mut reg = Registry::new();
    reg.register(spec_for(1, Some("name"), &["name"], &["street"]));
    reg.register(spec_for(2, Some("name"), &["name"], &["street"]));
    let root = Record {
        type_tag: 1,
        fields: vec![fv("name", "HQ"), fv("street", "1 Main St")],
        children: vec![
            Record {
                type_tag: 2,
                fields: vec![fv("name", "Annex"), fv("street", "2 Main Ave")],
                children: vec![],
            },
            Record {
                type_tag: 2,
                fields: vec![fv("name", "Depot"), fv("street", "9 Side Rd")],
                children: vec![],
            },
        ],
    };
    let snap = build(&root, &reg).unwrap();
    let street = "street".to_string();
    let both = snap.search(&street, &"MAIN".to_string(), SearchMode::Substring);
    assert_eq!(both, vec!["HQ".to_string(), "Annex".to_string()]);
    let one = snap.search(&street, &"ave".to_string(), SearchMode::Substring);
    assert_eq!(one, vec!["Annex".to_string()]);
    let none = snap.search(&street, &"blvd".to_string(), SearchMode::Substring);
    assert!(none.is_empty());
    let exact = snap.search(&street, &"1 MAIN ST".to_string(), SearchMode::Exact);
    assert_eq!(exact, vec!["HQ".to_string()]);
}

#[test]
fn search_undeclared_field_is_empty() {
    let mut reg = Registry::new();
    reg.register(spec_for(1, Some("name"), &["name"], &["street"]));
    let root = Record {
        type_tag: 1,
        fields: vec![fv("name", "HQ"), fv("street", "1 Main St"), fv("note", "x")],
        children: vec![],
    };
    let snap = build(&root, &reg).unwrap();
    let miss = snap.search(&"note".to_string(), &"x".to_string(), SearchMode::Exact);
    assert!(miss.is_empty());
}

#[test]
fn search_shared_value_collects_each_key_once() {
    let mut reg = Registry::new();
    reg.register(spec_for(1, Some("name"), &["name"], &[]));
    reg.register(spec_for(2, Some("name"), &["name"], &["manager"]));
    let dept = |name: &str| Record {
        type_tag: 2,
        fields: vec![fv("name", name), fv("manager", "Bo")],
        children: vec![],
    };
    let root = Record {
        type_tag: 1,
        fields: vec![fv("name", "root")],
        children: vec![dept("D1"), dept("D2")],
    };
    let snap = build(&root, &reg).unwrap();
    let hits = snap.search(&"manager".to_string(), &"bo".to_string(), SearchMode::Exact);
    assert_eq!(hits, vec!["D1".to_string(), "D2".to_string()]);
}

#[test]
fn payload_survives_dropping_the_tree() {
    let mut reg = Registry::new();
    reg.register(spec_for(1, Some("name"), &["name"], &[]));
    let root = Record {
        type_tag: 1,
        fields: vec![fv("name", "A"), fv("extra", "opaque data")],
        children: vec![],
    };
    let snap = build(&root, &reg).unwrap();
    drop(root);
    let node = snap.get_by_key(&"A".to_string()).unwrap();
    assert_eq!(node.type_tag, 1);
    let extra = node.payload.iter().find(|f| f.name == "extra").unwrap();
    assert_eq!(extra.value, "opaque data");
}

#[test]
fn bound_node_implements_the_node_traits() {
    let mut reg = Registry::new();
    reg.register(spec_for(1, Some("name"), &["name", "city"], &[]));
    let record = Record {
        type_tag: 1,
        fields: vec![fv("name", "Acme"), fv("city", "Berlin")],
        children: vec![],
    };
    let bound = BoundNode { record: &record, registry: &reg };
    let key = SimpleFastTreeNode::generate_tree_node_hashmap_key(&bound);
    assert_eq!(key, "Acme|Berlin");
    let key2 = FlattenTreeNodeExt::generate_tree_node_hashmap_key(&bound);
    assert_eq!(key2, "Acme|Berlin");
    assert_eq!(FlattenTreeNodeExt::get_title(&bound), "Acme");
}
