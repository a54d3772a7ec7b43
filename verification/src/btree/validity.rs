//! Why a well-formed tree passes the validator, and how high it can be.
use vstd::prelude::*;
use vstd::arithmetic::power2::{lemma2_to64, lemma_pow2_strictly_increases, lemma_pow2_unfold, pow2};
use crate::btree::node::{child_deepest, child_records, child_rules};
use crate::btree::node::{child_shallowest, deepest_among, shallowest_among, Node, NodeType};
use crate::btree::walk::lemma_slots_records_around;

verus! {

/// The deepest leaf below a node stands no higher than the node.
pub proof fn lemma_deepest_at_least(node: Node, level: int)
    ensures
        node.deepest_leaf(level) >= level,
{
}

/// No leaf below these children lies deeper than the deepest leaf below all
/// of them.
pub proof fn lemma_deepest_among_bounds(children: Seq<Option<Box<Node>>>, level: int, at: int)
    requires
        0 <= at < children.len(),
    ensures
        child_deepest(children[at], level) <= deepest_among(children, level),
    decreases children.len(),
{
    if at < children.len() - 1 {
        lemma_deepest_among_bounds(children.drop_last(), level, at);
    }
}

/// Where every child has all its leaves on one level, that level is both
/// the shallowest and the deepest among them.
pub proof fn lemma_level_among(children: Seq<Option<Box<Node>>>, level: int, leaves: int)
    requires
        0 <= leaves <= usize::MAX,
        children.len() >= 1,
        forall|i: int|
            0 <= i < children.len() ==> child_shallowest(#[trigger] children[i], level) == leaves
                && child_deepest(children[i], level) == leaves,
    ensures
        shallowest_among(children, level) == leaves,
        deepest_among(children, level) == leaves,
    decreases children.len(),
{
    let front = children.drop_last();
    assert(children.last() == children[children.len() - 1]);
    if front.len() >= 1 {
        assert forall|i: int| 0 <= i < front.len() implies child_shallowest(
            #[trigger] front[i],
            level,
        ) == leaves && child_deepest(front[i], level) == leaves by {
            assert(front[i] == children[i]);
        }
        lemma_level_among(front, level, leaves);
    } else {
        assert(shallowest_among(front, level) == usize::MAX);
        assert(deepest_among(front, level) == 0);
    }
}

/// A well-formed subtree keeps the validator's rules, and all its leaves
/// stand `height` levels below its top.
pub proof fn lemma_well_formed_is_valid(node: Node, order: usize, is_root: bool, level: int)
    requires
        order >= 3,
        node.well_formed(order, is_root),
        0 <= level,
        level + node.height() <= usize::MAX,
        is_root ==> level == 0,
    ensures
        node.rules_hold(order, level),
        node.shallowest_leaf(level) == level + node.height(),
        node.deepest_leaf(level) == level + node.height(),
    decreases node,
{
    match node.node_type {
        NodeType::Leaf => {},
        NodeType::Regular => {
            let left = node.left_child.unwrap();
            let leaves = level + node.height();
            lemma_well_formed_is_valid(*left, order, false, level + 1);
            assert forall|i: int| 0 <= i < node.children@.len() implies child_rules(
                #[trigger] node.children@[i],
                order,
                level + 1,
            ) && child_shallowest(node.children@[i], level + 1) == leaves && child_deepest(
                node.children@[i],
                level + 1,
            ) == leaves by {
                let child = node.children@[i].unwrap();
                lemma_well_formed_is_valid(*child, order, false, level + 1);
            }
            lemma_level_among(node.children@, level + 1, leaves);
        },
    }
}

/// A well-formed node below the root has a record.
pub proof fn lemma_inner_node_has_record(node: Node, order: usize)
    requires
        order >= 3,
        node.well_formed(order, false),
    ensures
        node.devices@.len() >= 1,
        node.slots_ok(),
{
}

/// A well-formed subtree of height `h` with a record in its top node holds
/// at least `2^(h+1) - 1` records.
pub proof fn lemma_records_fill_height(node: Node, order: usize, is_root: bool)
    requires
        order >= 3,
        node.well_formed(order, is_root),
        node.devices@.len() >= 1,
    ensures
        node.records().len() + 1 >= pow2(node.height() + 1),
    decreases node,
{
    lemma2_to64();
    match node.node_type {
        NodeType::Leaf => {
            lemma_slots_records_around(node.devices@, node.children@, 0);
        },
        NodeType::Regular => {
            let left = node.left_child.unwrap();
            let first = node.children@[0].unwrap();
            lemma_inner_node_has_record(*left, order);
            lemma_inner_node_has_record(*first, order);
            lemma_records_fill_height(*left, order, false);
            lemma_records_fill_height(*first, order, false);
            lemma_slots_records_around(node.devices@, node.children@, 0);
            assert(node.records().len() >= child_records(node.left_child).len() + 1
                + child_records(node.children@[0]).len());
            lemma_pow2_unfold(node.height() + 1);
        },
    }
}

/// A well-formed tree whose records can be counted in 64 bits is less than
/// 64 levels high.
pub proof fn lemma_height_fits(node: Node, order: usize, is_root: bool)
    requires
        order >= 3,
        node.well_formed(order, is_root),
        node.devices@.len() >= 1,
        node.records().len() <= u64::MAX,
    ensures
        node.height() < 64,
{
    lemma_records_fill_height(node, order, is_root);
    lemma2_to64();
    if node.height() >= 64 {
        lemma_pow2_strictly_increases(64, node.height() + 1);
    }
}

} // verus!
