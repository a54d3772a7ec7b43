//! What holds of a store that was filled record by record.
use vstd::prelude::*;
use crate::device::IoTDevice;
use crate::btree::order::{ascending, has_key, lemma_position_parts, lemma_with_record_ascending};
use crate::btree::order::lemma_ascending_never_descends;
use crate::btree::order::{lemma_ascending_parts, position, with_record};
use crate::btree::node::{child_records, key_of, Direction, Node};
use crate::btree::walk::{leads_into, lemma_records_parts, lemma_slots_records_first, lower_part};
use crate::btree::walk::{next_slot, target, upper_part};

verus! {

/// No two of these records share a key.
pub open spec fn distinct_keys(devices: Seq<IoTDevice>) -> bool {
    forall|i: int, j: int|
        0 <= i < j < devices.len() ==> (#[trigger] devices[i]).numerical_id != (
        #[trigger] devices[j]).numerical_id
}

/// The records of a store that held `records` after `devices` were added to
/// it one by one, each where its key belongs.
pub open spec fn added_in_turn(records: Seq<IoTDevice>, devices: Seq<IoTDevice>) -> Seq<
    IoTDevice,
>
    decreases devices.len(),
{
    if devices.len() == 0 {
        records
    } else {
        with_record(added_in_turn(records, devices.drop_last()), devices.last())
    }
}

/// A record put where its key belongs adds its key to the keys that were
/// there, and nothing else.
pub proof fn law_with_record_keys(records: Seq<IoTDevice>, device: IoTDevice, key: u64)
    ensures
        has_key(with_record(records, device), key) <==> key == device.numerical_id || has_key(
            records,
            key,
        ),
{
    let at = position(records, device.numerical_id);
    lemma_position_parts_of_any(records, device.numerical_id);
    let after = with_record(records, device);
    if has_key(records, key) {
        let i = choose|i: int| 0 <= i < records.len() && (#[trigger] records[i]).numerical_id == key;
        if i < at {
            assert(after[i] == records[i]);
        } else {
            assert(after[i + 1] == records[i]);
        }
    }
    if key == device.numerical_id {
        assert(after[at] == device);
    }
    if has_key(after, key) {
        let i = choose|i: int| 0 <= i < after.len() && (#[trigger] after[i]).numerical_id == key;
        if i < at {
            assert(after[i] == records[i]);
        } else if i > at {
            assert(after[i] == records[i - 1]);
        }
    }
}

/// Every record added counts: after `n` records the store is `n` longer.
pub proof fn law_count_grows_by_one_each(records: Seq<IoTDevice>, devices: Seq<IoTDevice>)
    ensures
        added_in_turn(records, devices).len() == records.len() + devices.len(),
    decreases devices.len(),
{
    if devices.len() > 0 {
        let front = devices.drop_last();
        law_count_grows_by_one_each(records, front);
        lemma_position_parts_of_any(added_in_turn(records, front), devices.last().numerical_id);
    }
}

/// The position of a key lies within the sequence, ascending or not.
pub proof fn lemma_position_parts_of_any(records: Seq<IoTDevice>, key: u64)
    ensures
        0 <= position(records, key) <= records.len(),
    decreases records.len(),
{
    if records.len() > 0 && records.last().numerical_id > key {
        lemma_position_parts_of_any(records.drop_last(), key);
    }
}

/// Records with distinct keys, added in any order to an empty store, are
/// all there and none else, one each, and a walk meets them by strictly
/// ascending key.
pub proof fn law_distinct_keys_in_any_order(devices: Seq<IoTDevice>)
    requires
        distinct_keys(devices),
    ensures
        added_in_turn(Seq::empty(), devices).len() == devices.len(),
        ascending(added_in_turn(Seq::empty(), devices)),
        forall|key: u64|
            has_key(added_in_turn(Seq::empty(), devices), key) <==> has_key(devices, key),
        added_in_turn(Seq::empty(), devices).to_multiset() == devices.to_multiset(),
    decreases devices.len(),
{
    let none = Seq::<IoTDevice>::empty();
    if devices.len() > 0 {
        let front = devices.drop_last();
        let last = devices.last();
        let end = devices.len() - 1;
        assert forall|i: int, j: int| 0 <= i < j < front.len() implies (
        #[trigger] front[i]).numerical_id != (#[trigger] front[j]).numerical_id by {
            assert(front[i] == devices[i] && front[j] == devices[j]);
        }
        law_distinct_keys_in_any_order(front);
        let so_far = added_in_turn(none, front);
        if has_key(front, last.numerical_id) {
            let i = choose|i: int|
                0 <= i < front.len() && (#[trigger] front[i]).numerical_id == last.numerical_id;
            assert(front[i] == devices[i]);
            assert(devices[i].numerical_id != devices[end].numerical_id);
        }
        assert(!has_key(so_far, last.numerical_id));
        lemma_with_record_ascending(so_far, last);
        assert forall|key: u64| has_key(added_in_turn(none, devices), key) <==> has_key(
            devices,
            key,
        ) by {
            law_with_record_keys(so_far, last, key);
            if has_key(front, key) {
                let i = choose|i: int|
                    0 <= i < front.len() && (#[trigger] front[i]).numerical_id == key;
                assert(devices[i] == front[i]);
            }
            if key == last.numerical_id {
                assert(devices[end].numerical_id == key);
            }
            if has_key(devices, key) {
                let i = choose|i: int|
                    0 <= i < devices.len() && (#[trigger] devices[i]).numerical_id == key;
                if i < end {
                    assert(front[i] == devices[i]);
                }
            }
        }
        lemma_ascending_never_descends(so_far);
        lemma_position_parts(so_far, last.numerical_id);
        vstd::seq_lib::to_multiset_insert(so_far, position(so_far, last.numerical_id), last);
        vstd::seq_lib::to_multiset_build(front, last);
        assert(front.push(last) =~= devices);
    } else {
        assert(devices =~= none);
        assert(!has_key(none, 0)) by {}
        assert forall|key: u64| has_key(none, key) <==> has_key(devices, key) by {}
    }
}

/// In a node whose walk ascends, the records below a child lie between the
/// slots around it: above the key of the slot that the child belongs to, and
/// below the key of the next slot; those below the left child lie below the
/// key of the first slot.
pub proof fn law_children_between_slots(node: Node, direction: Direction, at: int)
    requires
        node.slots_ok(),
        ascending(node.records()),
        leads_into(node, direction),
        0 <= at < child_records(target(node, direction)).len(),
    ensures
        direction matches Direction::Right(i) ==> key_of(node.devices@[i as int]) < child_records(
            target(node, direction),
        )[at].numerical_id,
        next_slot(direction) < node.devices@.len() ==> child_records(
            target(node, direction),
        )[at].numerical_id < key_of(node.devices@[next_slot(direction)]),
{
    let devices = node.devices@;
    let n = devices.len() as int;
    let next = next_slot(direction);
    lemma_records_parts(node, direction);
    let lower = lower_part(node, direction);
    let below = child_records(target(node, direction));
    let upper = upper_part(node, direction);
    lemma_ascending_parts(lower + below, upper);
    lemma_ascending_parts(lower, below);
    match direction {
        Direction::Left => {},
        Direction::Right(i) => {
            assert(devices[i as int] is Some);
            assert(lower[lower.len() - 1] == devices[i as int].unwrap());
        },
    }
    if next < n {
        let rest_devices = devices.subrange(next, n);
        let rest_children = node.children@.subrange(next, n);
        assert(rest_devices[0] == devices[next]);
        lemma_slots_records_first(rest_devices, rest_children);
        match direction {
            Direction::Left => {
                assert(node.children@.subrange(0, n) =~= node.children@);
                assert(devices.subrange(0, n) =~= devices);
            },
            Direction::Right(i) => {},
        }
        assert(upper[0] == devices[next].unwrap());
        assert((lower + below)[lower.len() + at] == below[at]);
    }
}

} // verus!
