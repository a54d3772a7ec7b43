//! A node of the trie of paths.
use vstd::prelude::*;
use std::collections::HashMap;
use vstd::std_specs::cmp::PartialEqSpecImpl;
use crate::device::IoTDevice;

verus! {

/// A node of the trie. Its children are found by the code of their
/// character.
pub struct Node {
    pub key: char,
    pub next: HashMap<u32, Box<Node>>,
    pub value: Option<IoTDevice>,
}

impl Node {
    /// A node for a character, without children.
    pub fn new(key: char, device: Option<IoTDevice>) -> (node: Box<Node>)
        ensures
            node.key == key,
            node.value == device,
            node.next@ == Map::<u32, Box<Node>>::empty(),
    {
        Box::new(Node { key, next: HashMap::new(), value: device })
    }
}

impl PartialEq for Node {
    fn eq(&self, other: &Node) -> (equal: bool) {
        self.key == other.key
    }
}

impl PartialEqSpecImpl for Node {
    open spec fn obeys_eq_spec() -> bool {
        true
    }

    /// Two nodes are alike when they stand for one character.
    open spec fn eq_spec(&self, other: &Node) -> bool {
        self.key == other.key
    }
}

} // verus!
