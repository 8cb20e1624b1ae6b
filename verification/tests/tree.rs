use device_tree_source::tree::{
    has_label, Cell, Data, Labeled, Node, NodeName, Offset, Property, ReserveInfo,
};
use std::collections::HashMap;

fn node(labels: &[&str]) -> Node {
    Node::Existing {
        name: NodeName::Full("cpus".to_string()),
        proplist: HashMap::new(),
        children: HashMap::new(),
        labels: labels.iter().map(|l| l.to_string()).collect(),
        offset: 42,
    }
}

fn property(labels: &[&str]) -> Property {
    Property::Existing {
        name: "reg".to_string(),
        val: Some(vec![Data::Cells(32, vec![Cell::Num(1), Cell::Ref("x".to_string(), None)])]),
        labels: labels.iter().map(|l| l.to_string()).collect(),
        offset: 7,
    }
}

#[test]
fn names_whatever_the_form() {
    assert_eq!(NodeName::Ref("lbl".to_string()).as_str(), "lbl");
    assert_eq!(NodeName::Full("soc@0".to_string()).as_str(), "soc@0");
    assert_eq!(*node(&[]).name(), NodeName::Full("cpus".to_string()));
    let gone = Node::Deleted { name: NodeName::Ref("old".to_string()), offset: 3 };
    assert_eq!(gone.name().as_str(), "old");
    assert_eq!(property(&[]).name(), "reg");
    assert_eq!(Property::Deleted { name: "status".to_string(), offset: 9 }.name(), "status");
}

#[test]
fn offsets_whatever_the_form() {
    assert_eq!(node(&[]).get_offset(), 42);
    assert_eq!(Node::Deleted { name: NodeName::Ref("old".to_string()), offset: 3 }.get_offset(), 3);
    assert_eq!(property(&[]).get_offset(), 7);
    assert_eq!(Property::Deleted { name: "status".to_string(), offset: 9 }.get_offset(), 9);
}

#[test]
fn reservation_takes_each_label_once() {
    let mut r = ReserveInfo { address: 0x1000, size: 0x100, labels: Vec::new() };
    r.add_label("a");
    r.add_label("b");
    r.add_label("a");
    assert_eq!(r.labels, vec!["a".to_string(), "b".to_string()]);
    assert_eq!(r.address, 0x1000);
    assert_eq!(r.size, 0x100);
    assert!(has_label(&r.labels, &"b".to_string()));
    assert!(!has_label(&r.labels, &"c".to_string()));
}

#[test]
fn node_repeats_a_label_that_it_has() {
    let mut n = node(&["a"]);
    n.add_label("b");
    assert_eq!(n, node(&["a"]));
    n.add_label("a");
    assert_eq!(n, node(&["a", "a"]));
}

#[test]
fn property_repeats_a_label_that_it_has() {
    let mut p = property(&["a"]);
    p.add_label("b");
    assert_eq!(p, property(&["a"]));
    p.add_label("a");
    assert_eq!(p, property(&["a", "a"]));
}
