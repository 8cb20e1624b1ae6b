//! The device tree as a parser hands it on: boot information, nodes,
//! properties and their data, each with its labels and with the buffer
//! offset at which it was read.

use vstd::prelude::*;
use std::collections::HashMap;

verus! {

/// The texts of a list of labels.
pub open spec fn label_texts(labels: Seq<String>) -> Seq<Seq<char>> {
    labels.map_values(|l: String| l@)
}

/// Something that can be given labels.
pub trait Labeled {
    /// The labels that it has.
    spec fn labels(&self) -> Seq<Seq<char>>;

    /// Whether it takes labels at all.
    spec fn takes_labels(&self) -> bool;

    /// Gives it the label, as the kind of thing it is decides.
    fn add_label(&mut self, label: &str)
        requires
            old(self).takes_labels(),
        ensures
            final(self).takes_labels(),
            final(self).labels() == old(self).labels() || final(self).labels() == old(
                self,
            ).labels().push(label@),
    ;
}

/// Something that was read at an offset of the buffer.
pub trait Offset {
    /// The offset at which it was read.
    spec fn offset(&self) -> usize;

    fn get_offset(&self) -> (r: usize)
        ensures
            r == self.offset(),
    ;
}

/// A whole source: its memory reservations, the boot processor and the
/// root node.
#[derive(Debug)]
pub struct BootInfo {
    pub reserve_info: Vec<ReserveInfo>,
    pub boot_cpuid: u32,
    pub root: Node,
}

/// A memory reservation.
#[derive(Debug)]
pub struct ReserveInfo {
    pub address: u64,
    pub size: u64,
    pub labels: Vec<String>,
}

/// A node: deleted, or with its properties, children and labels.
#[derive(PartialEq, Eq, Debug)]
pub enum Node {
    Deleted { name: NodeName, offset: usize },
    Existing {
        name: NodeName,
        proplist: HashMap<String, Property>,
        children: HashMap<String, Node>,
        labels: Vec<String>,
        offset: usize,
    },
}

/// The name of a node: a reference to a label, or the name in full.
#[derive(PartialEq, Eq, Debug)]
pub enum NodeName {
    Ref(String),
    Full(String),
}

/// A property: deleted, or with its value and labels.
#[derive(PartialEq, Eq, Debug)]
pub enum Property {
    Deleted { name: String, offset: usize },
    Existing { name: String, val: Option<Vec<Data>>, labels: Vec<String>, offset: usize },
}

/// One piece of a property's value.
#[derive(PartialEq, Eq, Debug)]
pub enum Data {
    Reference(String, Option<u64>),
    String(String),
    Cells(usize, Vec<Cell>),
    ByteArray(Vec<u8>),
}

/// One cell of a cell list: a number, or a reference to a label.
#[derive(PartialEq, Eq, Debug, Clone)]
pub enum Cell {
    Num(u64),
    Ref(String, Option<u64>),
}

/// Whether `labels` holds `label`.
pub fn has_label(labels: &Vec<String>, label: &String) -> (r: bool)
    ensures
        r == label_texts(labels@).contains(label@),
{
    let mut i: usize = 0;
    while i < labels.len()
        invariant
            0 <= i <= labels@.len(),
            forall|k: int| 0 <= k < i ==> label_texts(labels@)[k] != label@,
        decreases labels@.len() - i,
    {
        if labels[i] == *label {
            assert(label_texts(labels@)[i as int] == label@);
            return true;
        }
        i = i + 1;
    }
    false
}

impl Labeled for ReserveInfo {
    open spec fn labels(&self) -> Seq<Seq<char>> {
        label_texts(self.labels@)
    }

    open spec fn takes_labels(&self) -> bool {
        true
    }

    /// Adds the label unless the reservation has it already.
    fn add_label(&mut self, label: &str)
        ensures
            final(self).address == old(self).address,
            final(self).size == old(self).size,
            final(self).labels() == if old(self).labels().contains(label@) {
                old(self).labels()
            } else {
                old(self).labels().push(label@)
            },
    {
        let label = label.to_owned();
        if !has_label(&self.labels, &label) {
            let ghost had = label_texts(self.labels@);
            self.labels.push(label);
            assert(label_texts(self.labels@) =~= had.push(label@));
        }
    }
}

impl NodeName {
    /// The text of the name, whichever form it has.
    pub fn as_str(&self) -> (r: &str)
        ensures
            r@ == self.text(),
    {
        match self {
            NodeName::Ref(name) => name.as_str(),
            NodeName::Full(name) => name.as_str(),
        }
    }

    /// The text of the name.
    pub open spec fn text(&self) -> Seq<char> {
        match *self {
            NodeName::Ref(name) => name@,
            NodeName::Full(name) => name@,
        }
    }
}

impl Node {
    /// The name of the node, deleted or not.
    pub fn name(&self) -> (r: &NodeName)
        ensures
            *r == self.spec_name(),
    {
        match self {
            Node::Deleted { name, .. } => name,
            Node::Existing { name, .. } => name,
        }
    }

    /// The name of the node.
    pub open spec fn spec_name(&self) -> NodeName {
        match *self {
            Node::Deleted { name, .. } => name,
            Node::Existing { name, .. } => name,
        }
    }
}

impl Offset for Node {
    open spec fn offset(&self) -> usize {
        match *self {
            Node::Deleted { offset, .. } => offset,
            Node::Existing { offset, .. } => offset,
        }
    }

    fn get_offset(&self) -> (r: usize) {
        match self {
            Node::Deleted { offset, .. } => *offset,
            Node::Existing { offset, .. } => *offset,
        }
    }
}

impl Property {
    /// The name of the property, deleted or not.
    pub fn name(&self) -> (r: &str)
        ensures
            r@ == self.spec_name(),
    {
        match self {
            Property::Deleted { name, .. } => name.as_str(),
            Property::Existing { name, .. } => name.as_str(),
        }
    }

    /// The name of the property.
    pub open spec fn spec_name(&self) -> Seq<char> {
        match *self {
            Property::Deleted { name, .. } => name@,
            Property::Existing { name, .. } => name@,
        }
    }
}

impl Offset for Property {
    open spec fn offset(&self) -> usize {
        match *self {
            Property::Deleted { offset, .. } => offset,
            Property::Existing { offset, .. } => offset,
        }
    }

    fn get_offset(&self) -> (r: usize) {
        match self {
            Property::Deleted { offset, .. } => *offset,
            Property::Existing { offset, .. } => *offset,
        }
    }
}

impl Labeled for Node {
    open spec fn labels(&self) -> Seq<Seq<char>> {
        match *self {
            Node::Deleted { .. } => Seq::empty(),
            Node::Existing { labels, .. } => label_texts(labels@),
        }
    }

    open spec fn takes_labels(&self) -> bool {
        self is Existing
    }

    /// Adds the label once more if the node has it already, and leaves
    /// the node as it is otherwise. A deleted node takes no labels.
    fn add_label(&mut self, label: &str)
        ensures
            final(self).offset() == old(self).offset(),
            final(self).spec_name() == old(self).spec_name(),
            final(self).labels() == if old(self).labels().contains(label@) {
                old(self).labels().push(label@)
            } else {
                old(self).labels()
            },
    {
        match self {
            Node::Deleted { .. } => {},
            Node::Existing { labels, .. } => {
                let label = label.to_owned();
                if has_label(labels, &label) {
                    let ghost had = label_texts(labels@);
                    labels.push(label);
                    assert(label_texts(labels@) =~= had.push(label@));
                }
            },
        }
    }
}

impl Labeled for Property {
    open spec fn labels(&self) -> Seq<Seq<char>> {
        match *self {
            Property::Deleted { .. } => Seq::empty(),
            Property::Existing { labels, .. } => label_texts(labels@),
        }
    }

    open spec fn takes_labels(&self) -> bool {
        self is Existing
    }

    /// Adds the label once more if the property has it already, and
    /// leaves the property as it is otherwise. A deleted property takes
    /// no labels.
    fn add_label(&mut self, label: &str)
        ensures
            final(self).offset() == old(self).offset(),
            final(self).spec_name() == old(self).spec_name(),
            final(self).labels() == if old(self).labels().contains(label@) {
                old(self).labels().push(label@)
            } else {
                old(self).labels()
            },
    {
        match self {
            Property::Deleted { .. } => {},
            Property::Existing { labels, .. } => {
                let label = label.to_owned();
                if has_label(labels, &label) {
                    let ghost had = label_texts(labels@);
                    labels.push(label);
                    assert(label_texts(labels@) =~= had.push(label@));
                }
            },
        }
    }
}

} // verus!
