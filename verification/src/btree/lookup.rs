//! Why a search that follows the keys finds what a walk would find.
use vstd::prelude::*;
use crate::device::IoTDevice;
use crate::btree::node::{child_records, key_of, Direction, Node};
use crate::btree::order::{has_key, lemma_has_key_parts, never_descends};
use crate::btree::walk::{leads_into, lower_part, target, upper_part};
use crate::btree::walk::{lemma_descent_sorted, lemma_records_parts, lemma_slots_records_childless};

verus! {

/// A record below a child of a node is a record of the node.
pub proof fn lemma_found_below(node: Node, direction: Direction, device: IoTDevice)
    requires
        leads_into(node, direction),
        child_records(target(node, direction)).contains(device),
    ensures
        node.records().contains(device),
{
    let lower = lower_part(node, direction);
    let below = child_records(target(node, direction));
    lemma_records_parts(node, direction);
    let i = choose|i: int| 0 <= i < below.len() && below[i] == device;
    assert(node.records()[lower.len() + i] == device);
}

/// In a node whose walk never descends, a key that is in no slot and not
/// below the child it leads to is nowhere below the node.
pub proof fn lemma_absent_below(node: Node, id: u64)
    requires
        node.slots_ok(),
        never_descends(node.records()),
        forall|j: int| 0 <= j < node.devices@.len() ==> key_of(#[trigger] node.devices@[j]) != id,
        !has_key(child_records(target(node, node.closest(id))), id),
    ensures
        !has_key(node.records(), id),
{
    let direction = node.closest(id);
    let lower = lower_part(node, direction);
    let upper = upper_part(node, direction);
    let below = child_records(target(node, direction));
    lemma_descent_sorted(node, id);
    lemma_records_parts(node, direction);
    lemma_has_key_parts(lower + below, upper, id);
    lemma_has_key_parts(lower, below, id);
}

/// A key that is in no slot of a leaf is not among its records.
pub proof fn lemma_absent_in_leaf(node: Node, id: u64)
    requires
        node.slots_ok(),
        node.left_child is None,
        forall|i: int| 0 <= i < node.children@.len() ==> (#[trigger] node.children@[i]) is None,
        forall|j: int| 0 <= j < node.devices@.len() ==> key_of(#[trigger] node.devices@[j]) != id,
    ensures
        !has_key(node.records(), id),
{
    lemma_slots_records_childless(node.devices@, node.children@);
    let records = node.records();
    assert forall|i: int| 0 <= i < records.len() implies (#[trigger] records[i]).numerical_id
        != id by {
        assert(records[i] == crate::btree::node::slots_records(node.devices@, node.children@)[i]);
        assert(key_of(node.devices@[i]) != id);
    }
}

} // verus!
