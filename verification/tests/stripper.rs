use stripper::address::addr_eq;
use stripper::address::assign_addresses;
use stripper::address::Address;
use stripper::address::PassError;
use stripper::address::Segment;
use stripper::control::embed;
use stripper::control::strip;
use stripper::locate::mode_of_operation;
use stripper::locate::toolchain_path;
use stripper::locate::Mode;
use stripper::store::deserialize;
use stripper::store::serialize;
use stripper::store::DocRecord;
use stripper::store::DocStore;
use stripper::tree::AssocKind;
use stripper::tree::AssocNode;
use stripper::tree::AttrEntry;
use stripper::tree::ImplHead;
use stripper::tree::NodeKind;
use stripper::tree::SourceTree;
use stripper::tree::TreeNode;
use stripper::visit::extract_docs;
use stripper::visit::visit_source_tree;

fn doc(text: &str) -> AttrEntry {
    AttrEntry::Doc(text.to_string())
}

fn plain_node(kind: NodeKind, name: &str, attrs: Vec<AttrEntry>, line: usize) -> TreeNode {
    TreeNode { name: name.to_string(), attrs, line, indent: 0, kind }
}

fn lines(texts: &[&str]) -> Vec<String> {
    texts.iter().map(|t| t.to_string()).collect()
}

/// The tree of the documented scenario source:
/// a documented `struct Foo`, an undocumented `enum Bar`, and an
/// `impl Foo` whose `new` is documented.
fn scenario_tree() -> SourceTree {
    SourceTree {
        items: vec![
            plain_node(NodeKind::StructNode, "Foo", vec![doc("Does X.")], 1),
            plain_node(NodeKind::EnumNode, "Bar", vec![], 2),
            TreeNode {
                name: String::new(),
                attrs: vec![],
                line: 3,
                indent: 0,
                kind: NodeKind::ImplNode(
                    ImplHead { target: "Foo".to_string(), trait_name: None },
                    vec![AssocNode {
                        name: "new".to_string(),
                        kind: AssocKind::FnMember,
                        attrs: vec![doc("Creates Foo.")],
                        line: 5,
                        indent: 4,
                    }],
                ),
            },
        ],
    }
}

fn scenario_buffer() -> Vec<String> {
    lines(&[
        "/// Does X.",
        "struct Foo {..}",
        "enum Bar {..}",
        "impl Foo {",
        "    /// Creates Foo.",
        "    fn new() {..}",
        "}",
    ])
}

/// The same declarations as parsed back out of the stripped buffer.
fn stripped_scenario_tree() -> SourceTree {
    SourceTree {
        items: vec![
            plain_node(NodeKind::StructNode, "Foo", vec![], 0),
            plain_node(NodeKind::EnumNode, "Bar", vec![], 1),
            TreeNode {
                name: String::new(),
                attrs: vec![],
                line: 2,
                indent: 0,
                kind: NodeKind::ImplNode(
                    ImplHead { target: "Foo".to_string(), trait_name: None },
                    vec![AssocNode {
                        name: "new".to_string(),
                        kind: AssocKind::FnMember,
                        attrs: vec![],
                        line: 3,
                        indent: 4,
                    }],
                ),
            },
        ],
    }
}

#[test]
fn scenario_strip_collects_docs_and_deletes_them() {
    let out = strip(&scenario_tree(), scenario_buffer()).unwrap();
    assert_eq!(
        out.buffer,
        lines(&[
            "struct Foo {..}",
            "enum Bar {..}",
            "impl Foo {",
            "    fn new() {..}",
            "}",
        ])
    );
    assert_eq!(out.store.records.len(), 2);
    assert_eq!(out.store.records[0].lines, lines(&["Does X."]));
    assert_eq!(out.store.records[1].lines, lines(&["Creates Foo."]));
    let headers = serialize(&out.store);
    assert_eq!(headers[0], ":: struct Foo");
    assert_eq!(headers[2], ":: impl 0 Foo/afn new");
}

#[test]
fn scenario_embed_restores_docs_verbatim() {
    let out = strip(&scenario_tree(), scenario_buffer()).unwrap();
    let restored = embed(&stripped_scenario_tree(), out.buffer, &out.store).unwrap();
    assert_eq!(restored, scenario_buffer());
}

#[test]
fn scenario_strip_is_idempotent() {
    let out = strip(&scenario_tree(), scenario_buffer()).unwrap();
    let stripped_buffer = out.buffer.clone();
    let again = strip(&stripped_scenario_tree(), out.buffer).unwrap();
    assert!(again.store.records.is_empty());
    assert_eq!(again.buffer, stripped_buffer);
}

#[test]
fn scenario_addresses_are_unique() {
    let raw = visit_source_tree(&scenario_tree());
    let assigned = assign_addresses(&raw).unwrap();
    assert_eq!(assigned.len(), 4);
    for p in 0..assigned.len() {
        for q in (p + 1)..assigned.len() {
            assert!(!addr_eq(&assigned[p].address, &assigned[q].address));
        }
    }
}

#[test]
fn reformatted_source_keeps_addresses() {
    let raw_a = visit_source_tree(&scenario_tree());
    let mut other = scenario_tree();
    for (k, item) in other.items.iter_mut().enumerate() {
        item.line = 10 + 3 * k;
        item.indent = 2;
    }
    let raw_b = visit_source_tree(&other);
    let a = assign_addresses(&raw_a).unwrap();
    let b = assign_addresses(&raw_b).unwrap();
    assert_eq!(a.len(), b.len());
    for k in 0..a.len() {
        assert!(addr_eq(&a[k].address, &b[k].address));
    }
}

#[test]
fn sibling_impls_get_distinct_ordinals() {
    let head = || ImplHead { target: "Foo".to_string(), trait_name: None };
    let tree = SourceTree {
        items: vec![
            TreeNode {
                name: String::new(),
                attrs: vec![],
                line: 0,
                indent: 0,
                kind: NodeKind::ImplNode(head(), vec![]),
            },
            TreeNode {
                name: String::new(),
                attrs: vec![],
                line: 1,
                indent: 0,
                kind: NodeKind::ImplNode(head(), vec![]),
            },
        ],
    };
    let assigned = assign_addresses(&visit_source_tree(&tree)).unwrap();
    let ordinal_of = |a: &Address| match a.segs.last().unwrap() {
        Segment::ImplSeg { ordinal, .. } => *ordinal,
        _ => panic!("expected an impl segment"),
    };
    assert_eq!(ordinal_of(&assigned[0].address), 0);
    assert_eq!(ordinal_of(&assigned[1].address), 1);
    assert!(!addr_eq(&assigned[0].address, &assigned[1].address));
}

#[test]
fn colliding_declarations_are_fatal() {
    let tree = SourceTree {
        items: vec![
            plain_node(NodeKind::StructNode, "Foo", vec![], 0),
            plain_node(NodeKind::StructNode, "Foo", vec![], 1),
        ],
    };
    let r = assign_addresses(&visit_source_tree(&tree));
    assert_eq!(r.err().unwrap(), PassError::AddressCollision);
    let r2 = strip(&tree, lines(&["struct Foo {..}", "struct Foo {..}"]));
    assert_eq!(r2.err().unwrap(), PassError::AddressCollision);
}

#[test]
fn module_path_distinguishes_declarations() {
    let tree = SourceTree {
        items: vec![
            TreeNode {
                name: "a".to_string(),
                attrs: vec![],
                line: 0,
                indent: 0,
                kind: NodeKind::ModNode(
                    true,
                    vec![plain_node(NodeKind::StructNode, "Foo", vec![], 1)],
                ),
            },
            TreeNode {
                name: "b".to_string(),
                attrs: vec![],
                line: 3,
                indent: 0,
                kind: NodeKind::ModNode(
                    true,
                    vec![plain_node(NodeKind::StructNode, "Foo", vec![], 4)],
                ),
            },
        ],
    };
    let assigned = assign_addresses(&visit_source_tree(&tree)).unwrap();
    assert_eq!(assigned.len(), 2);
    assert!(!addr_eq(&assigned[0].address, &assigned[1].address));
    let store = DocStore {
        records: vec![DocRecord {
            address: stripper::address::clone_address(&assigned[1].address),
            lines: lines(&["x"]),
        }],
    };
    let headers = serialize(&store);
    assert_eq!(headers[0], ":: mod b/struct Foo");
}

#[test]
fn unloaded_modules_and_unknown_kinds_are_skipped() {
    let tree = SourceTree {
        items: vec![
            TreeNode {
                name: "ext".to_string(),
                attrs: vec![],
                line: 0,
                indent: 0,
                kind: NodeKind::ModNode(
                    false,
                    vec![plain_node(NodeKind::StructNode, "Hidden", vec![], 1)],
                ),
            },
            plain_node(NodeKind::OtherNode, "whatever", vec![doc("ignored")], 2),
            plain_node(NodeKind::FnNode, "run", vec![], 3),
        ],
    };
    let raw = visit_source_tree(&tree);
    assert_eq!(raw.len(), 1);
    assert_eq!(raw[0].name, "run");
}

#[test]
fn doc_run_is_broken_by_non_doc_attribute() {
    let attrs = vec![doc("a"), AttrEntry::NonDoc, doc("b"), doc("c")];
    let docs = extract_docs(&attrs);
    assert_eq!(docs, lines(&["b", "c"]));
    let none = extract_docs(&vec![doc("a"), AttrEntry::NonDoc]);
    assert!(none.is_empty());
}

#[test]
fn stale_store_entries_are_skipped() {
    let store = DocStore {
        records: vec![DocRecord {
            address: Address {
                segs: vec![Segment::TypeSeg {
                    kind: stripper::visit::DeclKind::StructDecl,
                    name: "Gone".to_string(),
                }],
            },
            lines: lines(&["was removed"]),
        }],
    };
    let buffer = lines(&["enum Bar {..}"]);
    let tree = SourceTree { items: vec![plain_node(NodeKind::EnumNode, "Bar", vec![], 0)] };
    let out = embed(&tree, buffer.clone(), &store).unwrap();
    assert_eq!(out, buffer);
}

#[test]
fn store_serialization_round_trips() {
    let out = strip(&scenario_tree(), scenario_buffer()).unwrap();
    let text = serialize(&out.store);
    let back = deserialize(&text).unwrap();
    assert_eq!(back.records.len(), out.store.records.len());
    for k in 0..back.records.len() {
        assert!(addr_eq(&back.records[k].address, &out.store.records[k].address));
        assert_eq!(back.records[k].lines, out.store.records[k].lines);
    }
    assert_eq!(serialize(&back), text);
}

#[test]
fn ordinal_digits_round_trip() {
    let store = DocStore {
        records: vec![DocRecord {
            address: Address {
                segs: vec![Segment::ImplSeg {
                    target: "Foo".to_string(),
                    trait_name: Some("Display".to_string()),
                    ordinal: 12,
                }],
            },
            lines: lines(&["docs"]),
        }],
    };
    let text = serialize(&store);
    assert_eq!(text[0], ":: impl 12 Foo Display");
    let back = deserialize(&text).unwrap();
    assert!(addr_eq(&back.records[0].address, &store.records[0].address));
    assert_eq!(serialize(&back), text);
}

#[test]
fn header_like_doc_lines_round_trip() {
    // Doc text is opaque: even a doc line that is itself a well-formed
    // header line comes back unchanged, because stored doc lines carry a
    // leading space that no header line can carry.
    let store = DocStore {
        records: vec![DocRecord {
            address: Address {
                segs: vec![Segment::TypeSeg {
                    kind: stripper::visit::DeclKind::StructDecl,
                    name: "A".to_string(),
                }],
            },
            lines: lines(&[":: struct X"]),
        }],
    };
    let text = serialize(&store);
    assert_eq!(text, lines(&[":: struct A", " :: struct X"]));
    let back = deserialize(&text).unwrap();
    assert_eq!(back.records.len(), 1);
    assert_eq!(back.records[0].lines, lines(&[":: struct X"]));
    assert!(addr_eq(&back.records[0].address, &store.records[0].address));
    assert_eq!(serialize(&back), text);
}

#[test]
fn non_canonical_headers_are_rejected() {
    // Parseable but not canonical: a leading zero in the ordinal does not
    // render back to the same line, so the store is refused rather than
    // silently rewritten.
    let r = deserialize(&lines(&[":: impl 00 Foo", " docs"]));
    assert_eq!(r.err().unwrap(), PassError::MalformedDocStore);
    let ok = deserialize(&lines(&[":: impl 0 Foo", " docs"])).unwrap();
    assert_eq!(ok.records.len(), 1);
    assert_eq!(ok.records[0].lines, lines(&["docs"]));
}

#[test]
fn blank_records_are_rejected() {
    // A header with no doc lines would be a blank entry, which is never
    // persisted; the store is refused.
    let r = deserialize(&lines(&[":: struct Foo"]));
    assert_eq!(r.err().unwrap(), PassError::MalformedDocStore);
    let r2 = deserialize(&lines(&[":: struct Foo", ":: struct Bar", " docs"]));
    assert_eq!(r2.err().unwrap(), PassError::MalformedDocStore);
}

#[test]
fn malformed_store_is_fatal() {
    let r = deserialize(&lines(&["not a header"]));
    assert_eq!(r.err().unwrap(), PassError::MalformedDocStore);
    let r2 = deserialize(&lines(&[":: bogus"]));
    assert_eq!(r2.err().unwrap(), PassError::MalformedDocStore);
    let r3 = deserialize(&lines(&[":: struct Foo", "body", ":: nonsense segment x/"]));
    assert_eq!(r3.err().unwrap(), PassError::MalformedDocStore);
}

#[test]
fn empty_store_round_trips() {
    let store = deserialize(&Vec::new()).unwrap();
    assert!(store.records.is_empty());
    assert!(serialize(&store).is_empty());
}

#[test]
fn trait_methods_are_addressed_under_their_trait() {
    let tree = SourceTree {
        items: vec![TreeNode {
            name: "Greet".to_string(),
            attrs: vec![],
            line: 0,
            indent: 0,
            kind: NodeKind::TraitNode(vec![
                AssocNode {
                    name: "hello".to_string(),
                    kind: AssocKind::FnMember,
                    attrs: vec![doc("Says hello.")],
                    line: 2,
                    indent: 4,
                },
                AssocNode {
                    name: "Banner".to_string(),
                    kind: AssocKind::OtherMember,
                    attrs: vec![doc("A constant, not a function.")],
                    line: 3,
                    indent: 4,
                },
            ]),
        }],
    };
    let buffer = lines(&[
        "trait Greet {",
        "    /// Says hello.",
        "    fn hello(&self);",
        "    const BANNER: &'static str;",
        "}",
    ]);
    let out = strip(&tree, buffer).unwrap();
    assert_eq!(out.store.records.len(), 1);
    assert_eq!(out.store.records[0].lines, lines(&["Says hello."]));
    let text = serialize(&out.store);
    assert_eq!(text[0], ":: trait Greet/afn hello");
    assert_eq!(
        out.buffer,
        lines(&[
            "trait Greet {",
            "    fn hello(&self);",
            "    const BANNER: &'static str;",
            "}",
        ])
    );
}

#[test]
fn trait_impls_are_distinguished_from_inherent_impls() {
    let tree = SourceTree {
        items: vec![
            TreeNode {
                name: String::new(),
                attrs: vec![],
                line: 0,
                indent: 0,
                kind: NodeKind::ImplNode(
                    ImplHead { target: "Foo".to_string(), trait_name: None },
                    vec![],
                ),
            },
            TreeNode {
                name: String::new(),
                attrs: vec![],
                line: 1,
                indent: 0,
                kind: NodeKind::ImplNode(
                    ImplHead { target: "Foo".to_string(), trait_name: Some("Clone".to_string()) },
                    vec![],
                ),
            },
        ],
    };
    let assigned = assign_addresses(&visit_source_tree(&tree)).unwrap();
    let ordinal_of = |a: &Address| match a.segs.last().unwrap() {
        Segment::ImplSeg { ordinal, .. } => *ordinal,
        _ => panic!("expected an impl segment"),
    };
    assert_eq!(ordinal_of(&assigned[0].address), 0);
    assert_eq!(ordinal_of(&assigned[1].address), 0);
    assert!(!addr_eq(&assigned[0].address, &assigned[1].address));
}

#[test]
fn consistency_gate_accepts_and_rejects() {
    assert!(stripper::control::source_consistent(&scenario_tree(), &scenario_buffer()));
    let mut wrong = scenario_buffer();
    wrong[0] = "/// Does Y.".to_string();
    assert!(!stripper::control::source_consistent(&scenario_tree(), &wrong));
    let short = lines(&["/// Does X.", "struct Foo {..}"]);
    assert!(!stripper::control::source_consistent(&scenario_tree(), &short));
    let colliding = SourceTree {
        items: vec![
            plain_node(NodeKind::StructNode, "Foo", vec![], 0),
            plain_node(NodeKind::StructNode, "Foo", vec![], 1),
        ],
    };
    let two = lines(&["struct Foo {..}", "struct Foo {..}"]);
    assert!(!stripper::control::source_consistent(&colliding, &two));
}

#[test]
fn stale_entries_are_reported() {
    let out = strip(&scenario_tree(), scenario_buffer()).unwrap();
    let fresh = stripper::control::stale_entries(&stripped_scenario_tree(), &out.store).unwrap();
    assert!(fresh.is_empty());
    let renamed = SourceTree {
        items: vec![plain_node(NodeKind::StructNode, "Renamed", vec![], 0)],
    };
    let stale = stripper::control::stale_entries(&renamed, &out.store).unwrap();
    assert_eq!(stale.len(), 2);
    assert!(addr_eq(&stale[0], &out.store.records[0].address));
    assert!(addr_eq(&stale[1], &out.store.records[1].address));
}

#[test]
fn mode_selection_defaults_to_strip() {
    assert_eq!(mode_of_operation(None), Mode::StripMode);
    let strip_word = "strip".to_string();
    assert_eq!(mode_of_operation(Some(&strip_word)), Mode::StripMode);
    let embed_word = "embed".to_string();
    assert_eq!(mode_of_operation(Some(&embed_word)), Mode::EmbedMode);
}

#[test]
fn toolchain_path_needs_both_parts() {
    let some = toolchain_path(Some("/home/u/.rustup".to_string()), Some("stable".to_string()));
    assert_eq!(some.unwrap(), "/home/u/.rustup/toolchains/stable");
    assert!(toolchain_path(None, Some("stable".to_string())).is_none());
    assert!(toolchain_path(Some("/home/u/.rustup".to_string()), None).is_none());
    assert!(toolchain_path(None, None).is_none());
}
