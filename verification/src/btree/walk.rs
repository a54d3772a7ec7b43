//! How the records of a run of slots change when slots come and go.
use vstd::prelude::*;
use crate::device::IoTDevice;
use crate::btree::node::{child_records, key_of, slot_record, slots_records};
use crate::btree::node::{lemma_count_at_most_parts, Direction, Node};
use crate::btree::order::{ascending, has_key, lemma_ascending_parts, lemma_never_descends_parts};
use crate::btree::order::never_descends;

verus! {

/// The records of one slot: its record, then those below its child.
pub open spec fn one_slot(device: Option<IoTDevice>, child: Option<Box<Node>>) -> Seq<IoTDevice> {
    slot_record(device) + child_records(child)
}

/// The records of two runs of slots, one after the other, are the records of
/// the first run followed by those of the second.
pub proof fn lemma_slots_records_concat(
    devices: Seq<Option<IoTDevice>>,
    children: Seq<Option<Box<Node>>>,
    more_devices: Seq<Option<IoTDevice>>,
    more_children: Seq<Option<Box<Node>>>,
)
    requires
        devices.len() == children.len(),
        more_devices.len() == more_children.len(),
    ensures
        slots_records(devices + more_devices, children + more_children) == slots_records(
            devices,
            children,
        ) + slots_records(more_devices, more_children),
    decreases more_devices.len(),
{
    if more_devices.len() == 0 {
        assert(devices + more_devices =~= devices);
        assert(children + more_children =~= children);
        assert(slots_records(devices, children) + Seq::<IoTDevice>::empty() =~= slots_records(
            devices,
            children,
        ));
    } else {
        let all_devices = devices + more_devices;
        let all_children = children + more_children;
        assert(all_devices.drop_last() =~= devices + more_devices.drop_last());
        assert(all_children.drop_last() =~= children + more_children.drop_last());
        lemma_slots_records_concat(
            devices,
            children,
            more_devices.drop_last(),
            more_children.drop_last(),
        );
        assert(all_devices.last() == more_devices.last());
        assert(all_children.last() == more_children.last());
        assert(slots_records(all_devices, all_children) =~= slots_records(devices, children)
            + slots_records(more_devices, more_children));
    }
}

/// The records of a run of one slot.
pub proof fn lemma_slots_records_single(device: Option<IoTDevice>, child: Option<Box<Node>>)
    ensures
        slots_records(seq![device], seq![child]) == one_slot(device, child),
{
    let devices = seq![device];
    let children = seq![child];
    assert(devices.drop_last() =~= Seq::<Option<IoTDevice>>::empty());
    assert(slots_records(devices.drop_last(), children.drop_last()) =~= Seq::<IoTDevice>::empty());
    assert(slots_records(devices, children) =~= one_slot(device, child));
}

/// A run of slots read in two parts, cut at slot `at`.
pub proof fn lemma_slots_records_cut(
    devices: Seq<Option<IoTDevice>>,
    children: Seq<Option<Box<Node>>>,
    at: int,
)
    requires
        devices.len() == children.len(),
        0 <= at <= devices.len(),
    ensures
        slots_records(devices, children) == slots_records(
            devices.subrange(0, at),
            children.subrange(0, at),
        ) + slots_records(
            devices.subrange(at, devices.len() as int),
            children.subrange(at, children.len() as int),
        ),
{
    let n = devices.len() as int;
    assert(devices =~= devices.subrange(0, at) + devices.subrange(at, n));
    assert(children =~= children.subrange(0, at) + children.subrange(at, n));
    lemma_slots_records_concat(
        devices.subrange(0, at),
        children.subrange(0, at),
        devices.subrange(at, n),
        children.subrange(at, n),
    );
}

/// A run of slots read around slot `at`: the slots before it, the slot, the
/// slots after it.
pub proof fn lemma_slots_records_around(
    devices: Seq<Option<IoTDevice>>,
    children: Seq<Option<Box<Node>>>,
    at: int,
)
    requires
        devices.len() == children.len(),
        0 <= at < devices.len(),
    ensures
        slots_records(devices, children) == slots_records(
            devices.subrange(0, at),
            children.subrange(0, at),
        ) + one_slot(devices[at], children[at]) + slots_records(
            devices.subrange(at + 1, devices.len() as int),
            children.subrange(at + 1, children.len() as int),
        ),
{
    let n = devices.len() as int;
    lemma_slots_records_cut(devices, children, at);
    let upper_devices = devices.subrange(at, n);
    let upper_children = children.subrange(at, n);
    lemma_slots_records_cut(upper_devices, upper_children, 1);
    assert(upper_devices.subrange(0, 1) =~= seq![devices[at]]);
    assert(upper_children.subrange(0, 1) =~= seq![children[at]]);
    assert(upper_devices.subrange(1, n - at) =~= devices.subrange(at + 1, n));
    assert(upper_children.subrange(1, n - at) =~= children.subrange(at + 1, n));
    lemma_slots_records_single(devices[at], children[at]);
    assert(slots_records(devices, children) =~= slots_records(
        devices.subrange(0, at),
        children.subrange(0, at),
    ) + one_slot(devices[at], children[at]) + slots_records(
        devices.subrange(at + 1, n),
        children.subrange(at + 1, n),
    ));
}

/// A run of slots with one more slot put in at `at`: the slots before `at`,
/// the new slot, the slots from `at` on.
pub proof fn lemma_slots_records_insert(
    devices: Seq<Option<IoTDevice>>,
    children: Seq<Option<Box<Node>>>,
    at: int,
    device: Option<IoTDevice>,
    child: Option<Box<Node>>,
)
    requires
        devices.len() == children.len(),
        0 <= at <= devices.len(),
    ensures
        slots_records(devices.insert(at, device), children.insert(at, child)) == slots_records(
            devices.subrange(0, at),
            children.subrange(0, at),
        ) + one_slot(device, child) + slots_records(
            devices.subrange(at, devices.len() as int),
            children.subrange(at, children.len() as int),
        ),
{
    let n = devices.len() as int;
    let new_devices = devices.insert(at, device);
    let new_children = children.insert(at, child);
    lemma_slots_records_around(new_devices, new_children, at);
    assert(new_devices.subrange(0, at) =~= devices.subrange(0, at));
    assert(new_children.subrange(0, at) =~= children.subrange(0, at));
    assert(new_devices.subrange(at + 1, n + 1) =~= devices.subrange(at, n));
    assert(new_children.subrange(at + 1, n + 1) =~= children.subrange(at, n));
}

/// The first record of a run of slots is the record of its first slot.
pub proof fn lemma_slots_records_first(
    devices: Seq<Option<IoTDevice>>,
    children: Seq<Option<Box<Node>>>,
)
    requires
        devices.len() == children.len(),
        devices.len() > 0,
        devices[0] is Some,
    ensures
        slots_records(devices, children).len() > 0,
        slots_records(devices, children)[0] == devices[0].unwrap(),
{
    lemma_slots_records_around(devices, children, 0);
    assert(slots_records(devices.subrange(0, 0), children.subrange(0, 0)) =~= Seq::<
        IoTDevice,
    >::empty());
}

/// Where no slot has a child, the records of a run of slots are the records
/// in the slots.
pub proof fn lemma_slots_records_childless(
    devices: Seq<Option<IoTDevice>>,
    children: Seq<Option<Box<Node>>>,
)
    requires
        devices.len() == children.len(),
        forall|i: int| 0 <= i < devices.len() ==> (#[trigger] devices[i]) is Some,
        forall|i: int| 0 <= i < children.len() ==> (#[trigger] children[i]) is None,
    ensures
        slots_records(devices, children).len() == devices.len(),
        forall|i: int|
            0 <= i < devices.len() ==> #[trigger] slots_records(devices, children)[i]
                == devices[i].unwrap(),
    decreases devices.len(),
{
    if devices.len() > 0 {
        let front_devices = devices.drop_last();
        let front_children = children.drop_last();
        assert forall|i: int| 0 <= i < front_devices.len() implies (
        #[trigger] front_devices[i]) is Some by {
            assert(front_devices[i] == devices[i]);
        }
        assert forall|i: int| 0 <= i < front_children.len() implies (
        #[trigger] front_children[i]) is None by {
            assert(front_children[i] == children[i]);
        }
        lemma_slots_records_childless(front_devices, front_children);
        assert(devices.last() is Some);
        assert(children.last() is None);
        assert(slot_record(devices.last()).len() == 1);
        assert(child_records(children.last()).len() == 0);
        assert(slots_records(devices, children).len() == devices.len());
        assert forall|i: int| 0 <= i < devices.len() implies #[trigger] slots_records(
            devices,
            children,
        )[i] == devices[i].unwrap() by {
            if i < devices.len() - 1 {
                assert(front_devices[i] == devices[i]);
                assert(slots_records(front_devices, front_children)[i] == front_devices[i].unwrap());
            }
        }
    }
}

/// The records that a walk emits before it enters the child that `direction`
/// names: nothing before the left child; before the child of a slot, all up
/// to and with the record of that slot.
pub open spec fn lower_part(node: Node, direction: Direction) -> Seq<IoTDevice> {
    match direction {
        Direction::Left => Seq::empty(),
        Direction::Right(i) => child_records(node.left_child) + slots_records(
            node.devices@.subrange(0, i as int),
            node.children@.subrange(0, i as int),
        ) + slot_record(node.devices@[i as int]),
    }
}

/// The child that `direction` names.
pub open spec fn target(node: Node, direction: Direction) -> Option<Box<Node>> {
    match direction {
        Direction::Left => node.left_child,
        Direction::Right(i) => node.children@[i as int],
    }
}

/// The records that a walk emits after it has left the child that
/// `direction` names.
pub open spec fn upper_part(node: Node, direction: Direction) -> Seq<IoTDevice> {
    match direction {
        Direction::Left => slots_records(node.devices@, node.children@),
        Direction::Right(i) => slots_records(
            node.devices@.subrange(i + 1, node.devices@.len() as int),
            node.children@.subrange(i + 1, node.children@.len() as int),
        ),
    }
}

/// The index of the slot that follows the child that `direction` names.
pub open spec fn next_slot(direction: Direction) -> int {
    match direction {
        Direction::Left => 0,
        Direction::Right(i) => i + 1,
    }
}

/// `direction` names a child of the node.
pub open spec fn leads_into(node: Node, direction: Direction) -> bool {
    &&& node.devices@.len() == node.children@.len()
    &&& 0 <= next_slot(direction) <= node.devices@.len()
}

/// `mended` is `node` with the child that `direction` names replaced.
pub open spec fn retargeted(
    node: Node,
    mended: Node,
    direction: Direction,
    child: Option<Box<Node>>,
) -> bool {
    &&& mended.devices@ == node.devices@
    &&& mended.node_type == node.node_type
    &&& match direction {
        Direction::Left => mended.left_child == child && mended.children@ == node.children@,
        Direction::Right(i) => mended.left_child == node.left_child && mended.children@
            == node.children@.update(i as int, child),
    }
}

/// A walk of a node: what comes before a child, the child, what comes after.
pub proof fn lemma_records_parts(node: Node, direction: Direction)
    requires
        leads_into(node, direction),
    ensures
        node.records() == lower_part(node, direction) + child_records(target(node, direction))
            + upper_part(node, direction),
{
    match direction {
        Direction::Left => {
            assert(node.records() =~= lower_part(node, direction) + child_records(
                target(node, direction),
            ) + upper_part(node, direction));
        },
        Direction::Right(i) => {
            lemma_slots_records_around(node.devices@, node.children@, i as int);
            assert(node.records() =~= lower_part(node, direction) + child_records(
                target(node, direction),
            ) + upper_part(node, direction));
        },
    }
}

/// Replacing a child changes the walk of a node in the part of that child
/// only.
pub proof fn lemma_retargeted_records(
    node: Node,
    mended: Node,
    direction: Direction,
    child: Option<Box<Node>>,
)
    requires
        leads_into(node, direction),
        retargeted(node, mended, direction, child),
    ensures
        leads_into(mended, direction),
        lower_part(mended, direction) == lower_part(node, direction),
        upper_part(mended, direction) == upper_part(node, direction),
        target(mended, direction) == child,
        mended.records() == lower_part(node, direction) + child_records(child) + upper_part(
            node,
            direction,
        ),
{
    lemma_records_parts(mended, direction);
    match direction {
        Direction::Left => {},
        Direction::Right(i) => {
            let n = node.devices@.len() as int;
            assert(mended.children@.subrange(0, i as int) =~= node.children@.subrange(
                0,
                i as int,
            ));
            assert(mended.children@.subrange(i + 1, n) =~= node.children@.subrange(i + 1, n));
        },
    }
}

/// A slot put in right behind the child that `direction` names shows in the
/// walk right behind the records of that child.
pub proof fn lemma_slot_behind_child(
    node: Node,
    wider: Node,
    direction: Direction,
    device: Option<IoTDevice>,
    child: Option<Box<Node>>,
)
    requires
        leads_into(node, direction),
        wider.left_child == node.left_child,
        wider.devices@ == node.devices@.insert(next_slot(direction), device),
        wider.children@ == node.children@.insert(next_slot(direction), child),
    ensures
        wider.records() == lower_part(node, direction) + child_records(target(node, direction))
            + one_slot(device, child) + upper_part(node, direction),
{
    let n = node.devices@.len() as int;
    let at = next_slot(direction);
    lemma_slots_records_insert(node.devices@, node.children@, at, device, child);
    match direction {
        Direction::Left => {
            assert(node.devices@.subrange(0, n) =~= node.devices@);
            assert(node.children@.subrange(0, n) =~= node.children@);
            assert(slots_records(node.devices@.subrange(0, 0), node.children@.subrange(0, 0))
                =~= Seq::<IoTDevice>::empty());
            assert(wider.records() =~= lower_part(node, direction) + child_records(
                target(node, direction),
            ) + one_slot(device, child) + upper_part(node, direction));
        },
        Direction::Right(i) => {
            let head_devices = node.devices@.subrange(0, at);
            let head_children = node.children@.subrange(0, at);
            assert(head_devices.drop_last() =~= node.devices@.subrange(0, i as int));
            assert(head_children.drop_last() =~= node.children@.subrange(0, i as int));
            assert(head_devices.last() == node.devices@[i as int]);
            assert(head_children.last() == node.children@[i as int]);
            assert(wider.records() =~= lower_part(node, direction) + child_records(
                target(node, direction),
            ) + one_slot(device, child) + upper_part(node, direction));
        },
    }
}

/// A slot put in anywhere adds its records to those of the node, whatever
/// the place.
pub proof fn lemma_slot_added(
    node: Node,
    wider: Node,
    at: int,
    device: Option<IoTDevice>,
    child: Option<Box<Node>>,
)
    requires
        node.devices@.len() == node.children@.len(),
        0 <= at <= node.devices@.len(),
        wider.left_child == node.left_child,
        wider.devices@ == node.devices@.insert(at, device),
        wider.children@ == node.children@.insert(at, child),
    ensures
        wider.records().to_multiset() == node.records().to_multiset().add(
            one_slot(device, child).to_multiset(),
        ),
{
    let n = node.devices@.len() as int;
    let left = child_records(node.left_child);
    let head = slots_records(node.devices@.subrange(0, at), node.children@.subrange(0, at));
    let tail = slots_records(node.devices@.subrange(at, n), node.children@.subrange(at, n));
    let slot = one_slot(device, child);
    lemma_slots_records_insert(node.devices@, node.children@, at, device, child);
    lemma_slots_records_cut(node.devices@, node.children@, at);
    assert(wider.records() =~= (left + head) + slot + tail);
    assert(node.records() =~= (left + head) + tail);
    vstd::seq_lib::lemma_multiset_commutative(left + head, slot);
    vstd::seq_lib::lemma_multiset_commutative(left + head + slot, tail);
    vstd::seq_lib::lemma_multiset_commutative(left + head, tail);
    assert(wider.records().to_multiset() =~= node.records().to_multiset().add(
        slot.to_multiset(),
    ));
}

/// A full node read as its two halves around the middle slot.
pub proof fn lemma_split_records(full: Node, lower: Node, sibling: Node)
    requires
        full.devices@.len() == full.children@.len(),
        full.devices@.len() >= 1,
        lower.devices@ == full.devices@.subrange(0, full.middle()),
        lower.children@ == full.children@.subrange(0, full.middle()),
        lower.left_child == full.left_child,
        sibling.left_child == full.children@[full.middle()],
        sibling.devices@ == full.devices@.subrange(full.middle() + 1, full.devices@.len() as int),
        sibling.children@ == full.children@.subrange(
            full.middle() + 1,
            full.devices@.len() as int,
        ),
    ensures
        full.records() == lower.records() + slot_record(full.devices@[full.middle()])
            + sibling.records(),
{
    lemma_slots_records_around(full.devices@, full.children@, full.middle());
    assert(full.records() =~= lower.records() + slot_record(full.devices@[full.middle()])
        + sibling.records());
}

/// In a node whose walk ascends, a key has no greater key before the child
/// it leads to and only greater ones behind it; the records of that child
/// ascend and lie between the slots around it.
pub proof fn lemma_descent_bounds(node: Node, id: u64)
    requires
        node.slots_ok(),
        ascending(node.records()),
    ensures
        leads_into(node, node.closest(id)),
        next_slot(node.closest(id)) == node.rank(id),
        ascending(child_records(target(node, node.closest(id)))),
        forall|i: int|
            0 <= i < lower_part(node, node.closest(id)).len() ==> (#[trigger] lower_part(
                node,
                node.closest(id),
            )[i]).numerical_id <= id,
        forall|i: int|
            0 <= i < upper_part(node, node.closest(id)).len() ==> (#[trigger] upper_part(
                node,
                node.closest(id),
            )[i]).numerical_id > id,
        forall|i: int, j: int|
            0 <= i < child_records(target(node, node.closest(id))).len() && 0 <= j < node.rank(id)
                ==> key_of(#[trigger] node.devices@[j]) < (#[trigger] child_records(
                target(node, node.closest(id)),
            )[i]).numerical_id,
        forall|i: int, j: int|
            0 <= i < child_records(target(node, node.closest(id))).len() && node.rank(id) <= j
                < node.devices@.len() ==> key_of(#[trigger] node.devices@[j]) > (
            #[trigger] child_records(target(node, node.closest(id)))[i]).numerical_id,
{
    let direction = node.closest(id);
    let devices = node.devices@;
    let n = devices.len() as int;
    let r = node.rank(id);
    lemma_count_at_most_parts(devices, id);
    assert(node.devices.len() == n);
    assert(next_slot(direction) == r);
    lemma_records_parts(node, direction);
    let lower = lower_part(node, direction);
    let below = child_records(target(node, direction));
    let upper = upper_part(node, direction);
    lemma_ascending_parts(lower + below, upper);
    lemma_ascending_parts(lower, below);
    // the slot in front of the child bounds the lower part
    match direction {
        Direction::Left => {},
        Direction::Right(i) => {
            let last = lower.len() - 1;
            assert(devices[i as int] is Some);
            assert(lower[last] == devices[i as int].unwrap());
            assert forall|k: int| 0 <= k < lower.len() implies (#[trigger] lower[k]).numerical_id
                <= id by {
                if k < last {
                    assert(lower[k].numerical_id < lower[last].numerical_id);
                }
                assert(key_of(devices[i as int]) <= id);
            }
            assert forall|k: int, j: int| 0 <= k < below.len() && 0 <= j < r implies key_of(
                #[trigger] devices[j],
            ) < (#[trigger] below[k]).numerical_id by {
                assert(key_of(devices[j]) <= key_of(devices[i as int]));
                assert(lower[last].numerical_id < below[k].numerical_id);
            }
        },
    }
    // the slot behind the child bounds the upper part
    if r < n {
        let rest_devices = devices.subrange(r, n);
        let rest_children = node.children@.subrange(r, n);
        assert(rest_devices[0] == devices[r]);
        lemma_slots_records_first(rest_devices, rest_children);
        match direction {
            Direction::Left => {
                assert(node.children@.subrange(0, n) =~= node.children@);
                assert(devices.subrange(0, n) =~= devices);
            },
            Direction::Right(i) => {},
        }
        assert(upper[0] == devices[r].unwrap());
        assert forall|k: int| 0 <= k < upper.len() implies (#[trigger] upper[k]).numerical_id
            > id by {
            if k > 0 {
                assert(upper[0].numerical_id < upper[k].numerical_id);
            }
            assert(key_of(devices[r]) > id);
        }
        assert forall|k: int, j: int| 0 <= k < below.len() && r <= j < n implies key_of(
            #[trigger] devices[j],
        ) > (#[trigger] below[k]).numerical_id by {
            assert(key_of(devices[r]) <= key_of(devices[j]));
            assert((lower + below)[lower.len() + k] == below[k]);
            assert((lower + below)[lower.len() + k].numerical_id < upper[0].numerical_id);
        }
    } else {
        assert(upper =~= Seq::<IoTDevice>::empty());
    }
}

/// In a node whose walk never descends, a key that no slot carries has only
/// smaller keys before the child it leads to and only greater ones behind
/// it, and the walk of that child never descends.
pub proof fn lemma_descent_sorted(node: Node, id: u64)
    requires
        node.slots_ok(),
        never_descends(node.records()),
        forall|j: int| 0 <= j < node.devices@.len() ==> key_of(#[trigger] node.devices@[j]) != id,
    ensures
        leads_into(node, node.closest(id)),
        never_descends(child_records(target(node, node.closest(id)))),
        forall|i: int|
            0 <= i < lower_part(node, node.closest(id)).len() ==> (#[trigger] lower_part(
                node,
                node.closest(id),
            )[i]).numerical_id < id,
        forall|i: int|
            0 <= i < upper_part(node, node.closest(id)).len() ==> (#[trigger] upper_part(
                node,
                node.closest(id),
            )[i]).numerical_id > id,
{
    let direction = node.closest(id);
    let devices = node.devices@;
    let n = devices.len() as int;
    let r = node.rank(id);
    lemma_count_at_most_parts(devices, id);
    assert(node.devices.len() == n);
    assert(next_slot(direction) == r);
    lemma_records_parts(node, direction);
    let lower = lower_part(node, direction);
    let below = child_records(target(node, direction));
    let upper = upper_part(node, direction);
    lemma_never_descends_parts(lower + below, upper);
    lemma_never_descends_parts(lower, below);
    match direction {
        Direction::Left => {},
        Direction::Right(i) => {
            let last = lower.len() - 1;
            assert(devices[i as int] is Some);
            assert(lower[last] == devices[i as int].unwrap());
            assert forall|k: int| 0 <= k < lower.len() implies (#[trigger] lower[k]).numerical_id
                < id by {
                if k < last {
                    assert(lower[k].numerical_id <= lower[last].numerical_id);
                }
                assert(key_of(devices[i as int]) <= id);
                assert(key_of(devices[i as int]) != id);
            }
        },
    }
    if r < n {
        let rest_devices = devices.subrange(r, n);
        let rest_children = node.children@.subrange(r, n);
        assert(rest_devices[0] == devices[r]);
        lemma_slots_records_first(rest_devices, rest_children);
        match direction {
            Direction::Left => {
                assert(node.children@.subrange(0, n) =~= node.children@);
                assert(devices.subrange(0, n) =~= devices);
            },
            Direction::Right(i) => {},
        }
        assert(upper[0] == devices[r].unwrap());
        assert forall|k: int| 0 <= k < upper.len() implies (#[trigger] upper[k]).numerical_id
            > id by {
            if k > 0 {
                assert(upper[0].numerical_id <= upper[k].numerical_id);
            }
            assert(key_of(devices[r]) > id);
        }
    } else {
        assert(upper =~= Seq::<IoTDevice>::empty());
    }
}

/// Every record in a slot of a node is among the records of the node.
pub proof fn lemma_slot_among_records(node: Node, at: int)
    requires
        node.devices@.len() == node.children@.len(),
        0 <= at < node.devices@.len(),
        node.devices@[at] is Some,
    ensures
        node.records().contains(node.devices@[at].unwrap()),
        has_key(node.records(), key_of(node.devices@[at])),
{
    lemma_slots_records_around(node.devices@, node.children@, at);
    let left = child_records(node.left_child);
    let head = slots_records(node.devices@.subrange(0, at), node.children@.subrange(0, at));
    let index = (left.len() + head.len()) as int;
    assert(node.records()[index] == node.devices@[at].unwrap());
}

} // verus!
