//! What one insertion does to the walk of a subtree.
use vstd::prelude::*;
use vstd::multiset::Multiset;
use crate::device::IoTDevice;
use crate::btree::node::{child_height, child_records, count_at_most, key_of, Node};
use crate::btree::node::{lemma_count_at_most_is, lemma_count_at_most_parts, lemma_sorted_subrange};
use crate::btree::node::{Direction, NodeType};
use crate::btree::order::{ascending, lemma_ascending_never_descends, position, with_record};
use crate::btree::order::{lemma_position_is, lemma_with_record_in_middle};
use crate::btree::walk::{leads_into, lower_part, one_slot, retargeted, target};
use crate::btree::walk::{lemma_descent_bounds, lemma_records_parts, lemma_retargeted_records};
use crate::btree::walk::{lemma_slot_added, lemma_slot_behind_child};
use crate::btree::walk::{lemma_slots_records_childless, lemma_split_records, upper_part};
use crate::btree::walk::lemma_slots_records_single;

verus! {

/// The records that a split hands upwards: the promoted record, then those
/// of the new sibling.
pub open spec fn promoted_records(
    promotion: Option<(Option<IoTDevice>, Option<Box<Node>>)>,
) -> Seq<IoTDevice> {
    match promotion {
        None => Seq::empty(),
        Some(slot) => one_slot(slot.0, slot.1),
    }
}

/// All records that an insertion below a node hands back: those of the node,
/// then those of a promotion.
pub open spec fn outcome_records(
    outcome: (Box<Node>, Option<(Option<IoTDevice>, Option<Box<Node>>)>),
) -> Seq<IoTDevice> {
    outcome.0.records() + promoted_records(outcome.1)
}

/// What an insertion below `before` hands back is a well-formed subtree of
/// the same height. Below the root it may come with a promoted record and a
/// well-formed sibling of that height; at the root it comes alone, and may
/// be one level higher.
pub open spec fn grown(
    before: Node,
    outcome: (Box<Node>, Option<(Option<IoTDevice>, Option<Box<Node>>)>),
    order: usize,
    is_root: bool,
) -> bool {
    &&& outcome.0.well_formed(order, is_root)
    &&& outcome.0.devices@.len() >= 1
    &&& match outcome.1 {
        None => outcome.0.height() == before.height() || (is_root && outcome.0.height()
            == before.height() + 1),
        Some(slot) => {
            &&& !is_root
            &&& slot.0 is Some
            &&& outcome.0.height() == before.height()
            &&& match slot.1 {
                None => false,
                Some(sibling) => sibling.well_formed(order, false) && sibling.height()
                    == before.height(),
            }
        },
    }
}

/// The node is the lower half of `full`, split in the middle: same shape,
/// same left child, the slots in front of the middle one.
pub open spec fn is_lower_half(full: Node, lower: Node) -> bool {
    &&& lower.node_type == full.node_type
    &&& lower.left_child == full.left_child
    &&& lower.devices@ == full.devices@.subrange(0, full.middle())
    &&& lower.children@ == full.children@.subrange(0, full.middle())
}

/// The node is the upper half of `full`, split in the middle: same shape,
/// the child of the middle slot as its left child, the slots behind the
/// middle one.
pub open spec fn is_upper_half(full: Node, upper: Node) -> bool {
    &&& upper.node_type == full.node_type
    &&& upper.left_child == full.children@[full.middle()]
    &&& upper.devices@ == full.devices@.subrange(full.middle() + 1, full.devices@.len() as int)
    &&& upper.children@ == full.children@.subrange(
        full.middle() + 1,
        full.devices@.len() as int,
    )
}

/// The child is there and is the upper half of `full`.
pub open spec fn holds_upper_half(full: Node, child: Option<Box<Node>>) -> bool {
    match child {
        None => false,
        Some(upper) => is_upper_half(full, *upper),
    }
}

/// What comes of a node once it is checked against the order.
///
/// A node with no more children than the order allows comes back as it is,
/// alone. Any other is split in the middle. Below the root its lower half
/// comes back, with the middle slot's record and the upper half to promote.
/// At the root a new regular node comes back, alone: its left child is the
/// lower half, and its one slot holds the middle record and the upper half.
pub open spec fn settled_as(
    node: Node,
    outcome: (Box<Node>, Option<(Option<IoTDevice>, Option<Box<Node>>)>),
    order: usize,
    is_root: bool,
) -> bool {
    if node.devices@.len() + 1 <= order {
        *outcome.0 == node && outcome.1 is None
    } else if is_root {
        &&& outcome.1 is None
        &&& outcome.0.node_type == NodeType::Regular
        &&& outcome.0.devices@ == seq![node.devices@[node.middle()]]
        &&& outcome.0.children@.len() == 1
        &&& holds_upper_half(node, outcome.0.children@[0])
        &&& match outcome.0.left_child {
            None => false,
            Some(lower) => is_lower_half(node, *lower),
        }
    } else {
        &&& is_lower_half(node, *outcome.0)
        &&& match outcome.1 {
            None => false,
            Some(slot) => slot.0 == node.devices@[node.middle()] && holds_upper_half(node, slot.1),
        }
    }
}

/// The node as it is once a record went in at or below it, before it is
/// checked against the order.
///
/// A leaf has the record in a slot of its own, put in by its key. A regular
/// node has, in place of the child that the key leads to, what came of that
/// child as it was filled and then checked, and in a slot of its own, put
/// in by its key, what that child promoted.
pub open spec fn filled_as(before: Node, filled: Node, device: IoTDevice, order: usize) -> bool
    decreases before,
{
    let id = device.numerical_id;
    &&& filled.node_type == before.node_type
    &&& match before.node_type {
        NodeType::Leaf => {
            &&& filled.left_child == before.left_child
            &&& filled.devices@ == before.devices@.insert(before.rank(id), Some(device))
            &&& filled.children@ == before.children@.insert(before.rank(id), None)
        },
        NodeType::Regular => match before.closest(id) {
            Direction::Left => match before.left_child {
                None => false,
                Some(child) => exists|
                    child_filled: Node,
                    sub: (Box<Node>, Option<(Option<IoTDevice>, Option<Box<Node>>)>),
                |
                    #![trigger settled_as(child_filled, sub, order, false)]
                    filled_as(*child, child_filled, device, order) && settled_as(
                        child_filled,
                        sub,
                        order,
                        false,
                    ) && put_back(before, filled, Direction::Left, sub),
            },
            Direction::Right(i) => i < before.children@.len() && match before.children@[i as int] {
                None => false,
                Some(child) => exists|
                    child_filled: Node,
                    sub: (Box<Node>, Option<(Option<IoTDevice>, Option<Box<Node>>)>),
                |
                    #![trigger settled_as(child_filled, sub, order, false)]
                    filled_as(*child, child_filled, device, order) && settled_as(
                        child_filled,
                        sub,
                        order,
                        false,
                    ) && put_back(before, filled, Direction::Right(i), sub),
            },
        },
    }
}

/// `filled` is `before` with the child that `direction` names replaced by
/// the node that came back from it, and with what came back to promote in
/// a slot of its own, behind the last slot whose key is not above its key.
pub open spec fn put_back(
    before: Node,
    filled: Node,
    direction: Direction,
    sub: (Box<Node>, Option<(Option<IoTDevice>, Option<Box<Node>>)>),
) -> bool {
    let left = match direction {
        Direction::Left => Some(sub.0),
        Direction::Right(i) => before.left_child,
    };
    let children = match direction {
        Direction::Left => before.children@,
        Direction::Right(i) => before.children@.update(i as int, Some(sub.0)),
    };
    &&& filled.left_child == left
    &&& match sub.1 {
        None => filled.devices@ == before.devices@ && filled.children@ == children,
        Some(slot) => {
            &&& filled.devices@ == before.devices@.insert(
                count_at_most(before.devices@, key_of(slot.0)),
                slot.0,
            )
            &&& filled.children@ == children.insert(
                count_at_most(before.devices@, key_of(slot.0)),
                slot.1,
            )
        },
    }
}

/// What an insertion at or below `before` hands back, exactly: what comes of
/// the node as it is filled, once it is checked against the order.
pub open spec fn inserted_as(
    before: Node,
    outcome: (Box<Node>, Option<(Option<IoTDevice>, Option<Box<Node>>)>),
    device: IoTDevice,
    order: usize,
    is_root: bool,
) -> bool {
    exists|filled: Node| #[trigger]
        filled_as(before, filled, device, order) && settled_as(filled, outcome, order, is_root)
}

/// The number of slots that a node has once a record with the key `id` went
/// in at or below it, before the node is checked against the order: one
/// more in a leaf; in a regular node one more if the child that the key
/// leads to is split.
pub open spec fn slots_after(node: Node, id: u64, order: usize) -> int
    decreases node,
{
    match node.node_type {
        NodeType::Leaf => node.devices@.len() as int + 1,
        NodeType::Regular => node.devices@.len() as int + (if match node.closest(id) {
            Direction::Left => child_overflows(node.left_child, id, order),
            Direction::Right(i) => i < node.children@.len() && child_overflows(
                node.children@[i as int],
                id,
                order,
            ),
        } {
            1int
        } else {
            0int
        }),
    }
}

/// The child is there and has more children than the order allows once a
/// record with the key `id` went in at or below it.
pub open spec fn child_overflows(child: Option<Box<Node>>, id: u64, order: usize) -> bool
    decreases child,
{
    match child {
        None => false,
        Some(node) => slots_after(*node, id, order) + 1 > order,
    }
}

/// The node has more children than the order allows once a record with the
/// key `id` went in at or below it: it is split.
pub open spec fn overflows(node: Node, id: u64, order: usize) -> bool {
    slots_after(node, id, order) + 1 > order
}

/// The child is there, of the given shape and with this number of slots.
pub open spec fn is_half(child: Option<Box<Node>>, kind: NodeType, slots: int) -> bool {
    match child {
        None => false,
        Some(node) => node.node_type == kind && node.devices@.len() == slots,
    }
}

/// All children are where they were, but the one that `direction` names.
pub open spec fn same_but_target(before: Node, after: Node, direction: Direction) -> bool {
    match direction {
        Direction::Left => after.children@ == before.children@,
        Direction::Right(i) => {
            &&& after.left_child == before.left_child
            &&& after.children@.len() == before.children@.len()
            &&& forall|j: int|
                0 <= j < before.children@.len() && j != i ==> #[trigger] after.children@[j]
                    == before.children@[j]
        },
    }
}

/// What an insertion at or below `before` hands back, by its shape.
///
/// A node that is not split comes back alone, of the same shape and height,
/// with the slots that `slots_after` counts: a leaf with the record put in
/// by its key; a regular node with its slots and all children but one as
/// they were, unless the child that the key leads to was split. A node that
/// is split holds `order` slots at that time: its halves get `order / 2` and
/// `order - 1 - order / 2` of them, and the middle record is promoted below
/// the root, or is the one slot of a new root, one level higher.
pub open spec fn handed_back(
    before: Node,
    outcome: (Box<Node>, Option<(Option<IoTDevice>, Option<Box<Node>>)>),
    device: IoTDevice,
    order: usize,
    is_root: bool,
) -> bool {
    let id = device.numerical_id;
    let slots = slots_after(before, id, order);
    if slots + 1 <= order {
        &&& outcome.1 is None
        &&& outcome.0.node_type == before.node_type
        &&& outcome.0.devices@.len() == slots
        &&& outcome.0.height() == before.height()
        &&& before.node_type == NodeType::Leaf ==> outcome.0.devices@ == before.devices@.insert(
            before.rank(id),
            Some(device),
        )
        &&& before.node_type == NodeType::Regular ==> same_but_target(
            before,
            *outcome.0,
            before.closest(id),
        ) || slots > before.devices@.len()
        &&& before.node_type == NodeType::Regular && slots == before.devices@.len()
            ==> outcome.0.devices@ == before.devices@
    } else if is_root {
        &&& slots == order
        &&& outcome.1 is None
        &&& outcome.0.node_type == NodeType::Regular
        &&& outcome.0.devices@.len() == 1
        &&& outcome.0.devices@[0] is Some
        &&& outcome.0.children@.len() == 1
        &&& outcome.0.height() == before.height() + 1
        &&& is_half(outcome.0.left_child, before.node_type, order as int / 2)
        &&& is_half(outcome.0.children@[0], before.node_type, order - 1 - order as int / 2)
        &&& before.node_type == NodeType::Leaf ==> parts_of_leaf(
            before.devices@.insert(before.rank(id), Some(device)),
            outcome.0.left_child,
            outcome.0.devices@[0],
            outcome.0.children@[0],
        )
    } else {
        &&& slots == order
        &&& outcome.0.node_type == before.node_type
        &&& outcome.0.devices@.len() == order as int / 2
        &&& outcome.0.height() == before.height()
        &&& match outcome.1 {
            None => false,
            Some(slot) => {
                &&& slot.0 is Some
                &&& is_half(slot.1, before.node_type, order - 1 - order as int / 2)
                &&& before.node_type == NodeType::Leaf ==> parts_of_leaf(
                    before.devices@.insert(before.rank(id), Some(device)),
                    Some(outcome.0),
                    slot.0,
                    slot.1,
                )
            },
        }
    }
}

/// The slots of a full leaf, parted in the middle: those in front of the
/// middle one in the lower half, the middle one alone, those behind it in
/// the upper half.
pub open spec fn parts_of_leaf(
    slots: Seq<Option<IoTDevice>>,
    lower: Option<Box<Node>>,
    middle: Option<IoTDevice>,
    upper: Option<Box<Node>>,
) -> bool {
    &&& middle == slots[slots.len() as int / 2]
    &&& match lower {
        None => false,
        Some(node) => node.devices@ == slots.subrange(0, slots.len() as int / 2),
    }
    &&& match upper {
        None => false,
        Some(node) => node.devices@ == slots.subrange(
            slots.len() as int / 2 + 1,
            slots.len() as int,
        ),
    }
}

/// A regular node whose child was replaced by what came back from it, and
/// which got what came back to promote, is as `filled_as` says.
pub proof fn lemma_filled_regular(
    before: Node,
    mended: Node,
    last: Node,
    grown_child: Box<Node>,
    promotion: Option<(Option<IoTDevice>, Option<Box<Node>>)>,
    device: IoTDevice,
    order: usize,
    child_filled: Node,
)
    requires
        before.node_type == NodeType::Regular,
        last.node_type == NodeType::Regular,
        regrown(before, mended, last, grown_child, promotion, device.numerical_id),
        filled_as(
            *target(before, before.closest(device.numerical_id)).unwrap(),
            child_filled,
            device,
            order,
        ),
        settled_as(child_filled, (grown_child, promotion), order, false),
    ensures
        filled_as(before, last, device, order),
{
    let direction = before.closest(device.numerical_id);
    let sub = (grown_child, promotion);
    assert(put_back(before, last, direction, sub));
    assert(settled_as(child_filled, sub, order, false));
}

/// What an insertion does to the root: on an empty store the new root is a
/// leaf that holds the record alone; on any other it is what the insertion
/// at the old root hands back, stated exactly by `inserted_as` and by its
/// shape by `handed_back`.
pub open spec fn grew(
    before: Option<Box<Node>>,
    after: Option<Box<Node>>,
    device: IoTDevice,
    order: usize,
) -> bool {
    match after {
        None => false,
        Some(root) => match before {
            None => {
                &&& root.node_type == NodeType::Leaf
                &&& root.left_child is None
                &&& root.devices@ == seq![Some(device)]
                &&& root.children@ == seq![None::<Box<Node>>]
            },
            Some(old_root) => {
                &&& inserted_as(*old_root, (root, None), device, order, true)
                &&& handed_back(*old_root, (root, None), device, order, true)
            },
        },
    }
}

/// From the node as it is filled and what came of it, the shape of what is
/// handed back.
pub proof fn lemma_handed_back(
    before: Node,
    filled: Node,
    outcome: (Box<Node>, Option<(Option<IoTDevice>, Option<Box<Node>>)>),
    device: IoTDevice,
    order: usize,
    is_root: bool,
)
    requires
        order >= 3,
        settled_as(filled, outcome, order, is_root),
        filled.slots_ok(),
        filled.node_type == before.node_type,
        filled.height() == before.height(),
        filled.devices@.len() == slots_after(before, device.numerical_id, order),
        filled.devices@.len() <= order,
        before.node_type == NodeType::Leaf ==> filled.devices@ == before.devices@.insert(
            before.rank(device.numerical_id),
            Some(device),
        ),
        before.node_type == NodeType::Regular ==> same_but_target(
            before,
            filled,
            before.closest(device.numerical_id),
        ) || filled.devices@.len() > before.devices@.len(),
        before.node_type == NodeType::Regular && filled.devices@.len() == before.devices@.len()
            ==> filled.devices@ == before.devices@,
    ensures
        handed_back(before, outcome, device, order, is_root),
        outcome.1 is Some <==> !is_root && overflows(before, device.numerical_id, order),
{
    let m = filled.middle();
    if filled.devices@.len() + 1 <= order {
    } else {
        assert(filled.devices@.len() == order);
        assert(m == order as int / 2);
        assert(filled.devices@[m] is Some);
        if is_root {
            let lower = outcome.0.left_child.unwrap();
            assert(lower.height() == filled.height());
        } else {
            assert(outcome.0.height() == filled.height());
        }
    }
}

/// The records handed back are those that were there and the new one; where
/// the walk ascended and the key is new, the new record stands where its key
/// belongs.
pub open spec fn holds_one_more(
    before: Seq<IoTDevice>,
    after: Seq<IoTDevice>,
    device: IoTDevice,
) -> bool {
    &&& after.to_multiset() == before.to_multiset().insert(device)
    &&& ascending(before) ==> after == with_record(before, device)
}

/// The two halves of a full node and the slot between them are well formed,
/// and a walk of them in turn is a walk of the full node.
pub proof fn lemma_split_well_formed(full: Node, lower: Node, sibling: Node, order: usize)
    requires
        order >= 3,
        full.shaped(order),
        full.devices@.len() == order,
        lower.devices@ == full.devices@.subrange(0, full.middle()),
        lower.children@ == full.children@.subrange(0, full.middle()),
        lower.left_child == full.left_child,
        lower.node_type == full.node_type,
        sibling.node_type == full.node_type,
        sibling.left_child == full.children@[full.middle()],
        sibling.devices@ == full.devices@.subrange(full.middle() + 1, full.devices@.len() as int),
        sibling.children@ == full.children@.subrange(
            full.middle() + 1,
            full.devices@.len() as int,
        ),
    ensures
        lower.well_formed(order, false),
        sibling.well_formed(order, false),
        lower.height() == full.height(),
        sibling.height() == full.height(),
        lower.devices@.len() >= 1,
        full.devices@[full.middle()] is Some,
        full.records() == lower.records() + one_slot(
            full.devices@[full.middle()],
            Some(Box::new(sibling)),
        ),
{
    let n = full.devices@.len() as int;
    let m = full.middle();
    lemma_sorted_subrange(full.devices@, 0, m);
    lemma_sorted_subrange(full.devices@, m + 1, n);
    assert(full.devices@[m] is Some);
    lemma_split_records(full, lower, sibling);
    assert(full.records() =~= lower.records() + one_slot(
        full.devices@[m],
        Some(Box::new(sibling)),
    ));
    match full.node_type {
        NodeType::Leaf => {
            assert forall|i: int| 0 <= i < lower.children@.len() implies (
            #[trigger] lower.children@[i]) is None by {
                assert(lower.children@[i] == full.children@[i]);
            }
            assert forall|i: int| 0 <= i < sibling.children@.len() implies (
            #[trigger] sibling.children@[i]) is None by {
                assert(sibling.children@[i] == full.children@[m + 1 + i]);
            }
            assert(full.children@[m] is None);
        },
        NodeType::Regular => {
            assert forall|i: int| 0 <= i < lower.children@.len() implies match #[trigger] lower.children@[i] {
                None => false,
                Some(child) => child.well_formed(order, false) && child.height() == child_height(
                    lower.left_child,
                ),
            } by {
                assert(lower.children@[i] == full.children@[i]);
            }
            assert(full.children@[m] is Some);
            assert forall|i: int| 0 <= i < sibling.children@.len() implies match #[trigger] sibling.children@[i] {
                None => false,
                Some(child) => child.well_formed(order, false) && child.height() == child_height(
                    sibling.left_child,
                ),
            } by {
                assert(sibling.children@[i] == full.children@[m + 1 + i]);
            }
        },
    }
}

/// A root made of a left child and one slot walks the left child, then the
/// slot.
pub proof fn lemma_new_root_records(
    root: Node,
    lower: Node,
    device: Option<IoTDevice>,
    sibling: Option<Box<Node>>,
)
    requires
        root.left_child == Some(Box::new(lower)),
        root.devices@.len() == 1,
        root.children@.len() == 1,
        root.devices@[0] == device,
        root.children@[0] == sibling,
    ensures
        root.records() == lower.records() + one_slot(device, sibling),
{
    assert(root.devices@ =~= seq![device]);
    assert(root.children@ =~= seq![sibling]);
    lemma_slots_records_single(device, sibling);
}

/// The multiset of a sequence of one record.
pub proof fn lemma_one_record(device: IoTDevice)
    ensures
        seq![device].to_multiset() == Multiset::<IoTDevice>::empty().insert(device),
{
    let none = Seq::<IoTDevice>::empty();
    vstd::seq_lib::to_multiset_build(none, device);
    assert(none.push(device) =~= seq![device]);
    assert(none.to_multiset() =~= Multiset::<IoTDevice>::empty()) by {
        vstd::seq_lib::to_multiset_len(none);
        assert(none.to_multiset().len() == 0);
    }
}

/// A record added to a leaf: the walk of the leaf gains it, in its place
/// where the leaf ascended and the key is new.
pub proof fn lemma_leaf_insert(before: Node, after: Node, device: IoTDevice)
    requires
        before.slots_ok(),
        before.left_child is None,
        forall|i: int| 0 <= i < before.children@.len() ==> (#[trigger] before.children@[i]) is None,
        after.left_child is None,
        after.devices@ == before.devices@.insert(
            before.rank(device.numerical_id),
            Some(device),
        ),
        after.children@ == before.children@.insert(before.rank(device.numerical_id), None),
    ensures
        holds_one_more(before.records(), after.records(), device),
{
    let id = device.numerical_id;
    let r = before.rank(id);
    lemma_count_at_most_parts(before.devices@, id);
    lemma_slot_added(before, after, r, Some(device), None);
    assert(one_slot(Some(device), None) =~= seq![device]);
    lemma_one_record(device);
    assert(after.records().to_multiset() =~= before.records().to_multiset().insert(device));
    let was = before.records();
    let now = after.records();
    lemma_slots_records_childless(before.devices@, before.children@);
    assert forall|i: int| 0 <= i < after.devices@.len() implies (
    #[trigger] after.devices@[i]) is Some by {
        if i < r {
            assert(after.devices@[i] == before.devices@[i]);
        } else if i > r {
            assert(after.devices@[i] == before.devices@[i - 1]);
        }
    }
    assert forall|i: int| 0 <= i < after.children@.len() implies (
    #[trigger] after.children@[i]) is None by {
        if i < r {
            assert(after.children@[i] == before.children@[i]);
        } else if i > r {
            assert(after.children@[i] == before.children@[i - 1]);
        }
    }
    lemma_slots_records_childless(after.devices@, after.children@);
    assert(was.len() == before.devices@.len());
    assert(now.len() == was.len() + 1);
    assert forall|i: int| 0 <= i < was.len() implies #[trigger] was[i]
        == before.devices@[i].unwrap() by {
        assert(was[i] == crate::btree::node::slots_records(
            before.devices@,
            before.children@,
        )[i]);
    }
    assert forall|i: int| 0 <= i < now.len() implies #[trigger] now[i]
        == after.devices@[i].unwrap() by {
        assert(now[i] == crate::btree::node::slots_records(after.devices@, after.children@)[i]);
    }
    if ascending(was) {
        assert forall|i: int| 0 <= i < r implies (#[trigger] was[i]).numerical_id <= id by {
            assert(key_of(before.devices@[i]) <= id);
        }
        assert forall|i: int| r <= i < was.len() implies (#[trigger] was[i]).numerical_id
            > id by {
            assert(key_of(before.devices@[i]) > id);
        }
        lemma_position_is(was, id, r);
        assert(now =~= with_record(was, device));
    }
}

/// Three runs of records, of which the middle one gains a record and hands
/// some of its records on: all in all, the record is gained.
pub proof fn lemma_middle_gains(
    lower: Seq<IoTDevice>,
    below: Seq<IoTDevice>,
    upper: Seq<IoTDevice>,
    kept: Seq<IoTDevice>,
    extra: Seq<IoTDevice>,
    device: IoTDevice,
)
    requires
        (kept + extra).to_multiset() == below.to_multiset().insert(device),
    ensures
        (lower + kept + upper).to_multiset().add(extra.to_multiset()) == (lower + below
            + upper).to_multiset().insert(device),
{
    vstd::seq_lib::lemma_multiset_commutative(lower, kept);
    vstd::seq_lib::lemma_multiset_commutative(lower + kept, upper);
    vstd::seq_lib::lemma_multiset_commutative(lower, below);
    vstd::seq_lib::lemma_multiset_commutative(lower + below, upper);
    vstd::seq_lib::lemma_multiset_commutative(kept, extra);
    broadcast use vstd::multiset::group_multiset_axioms;

    let l = lower.to_multiset();
    let b = below.to_multiset();
    let u = upper.to_multiset();
    let k = kept.to_multiset();
    let e = extra.to_multiset();
    assert(k.add(e) == b.insert(device));
    assert forall|v: IoTDevice| l.add(k).add(u).add(e).count(v) == l.add(b).add(u).insert(
        device,
    ).count(v) by {
        assert(k.add(e).count(v) == b.insert(device).count(v));
    }
    assert(l.add(k).add(u).add(e) =~= l.add(b).add(u).insert(device));
}

/// What a regular node looks like once a record went in below the child that
/// its key leads to: the child is replaced by the grown one, and a promoted
/// slot, if there is one, is added by its key.
pub open spec fn regrown(
    before: Node,
    mended: Node,
    last: Node,
    grown_child: Box<Node>,
    promotion: Option<(Option<IoTDevice>, Option<Box<Node>>)>,
    id: u64,
) -> bool {
    &&& before.slots_ok()
    &&& leads_into(before, before.closest(id))
    &&& target(before, before.closest(id)) is Some
    &&& retargeted(before, mended, before.closest(id), Some(grown_child))
    &&& match promotion {
        None => last == mended,
        Some(slot) => {
            &&& slot.0 is Some
            &&& last.left_child == mended.left_child
            &&& last.devices@ == mended.devices@.insert(mended.rank(key_of(slot.0)), slot.0)
            &&& last.children@ == mended.children@.insert(mended.rank(key_of(slot.0)), slot.1)
        },
    }
}

/// A record added below a child of a regular node: if what the child handed
/// back gained the record, so did the node.
pub proof fn lemma_regular_gains(
    before: Node,
    mended: Node,
    last: Node,
    grown_child: Box<Node>,
    promotion: Option<(Option<IoTDevice>, Option<Box<Node>>)>,
    device: IoTDevice,
)
    requires
        regrown(before, mended, last, grown_child, promotion, device.numerical_id),
        outcome_records((grown_child, promotion)).to_multiset() == child_records(
            target(before, before.closest(device.numerical_id)),
        ).to_multiset().insert(device),
    ensures
        last.records().to_multiset() == before.records().to_multiset().insert(device),
{
    let id = device.numerical_id;
    let direction = before.closest(id);
    let lower = lower_part(before, direction);
    let upper = upper_part(before, direction);
    let below = child_records(target(before, direction));
    let extra = promoted_records(promotion);
    lemma_records_parts(before, direction);
    lemma_retargeted_records(before, mended, direction, Some(grown_child));
    match promotion {
        None => {
            assert(extra =~= Seq::<IoTDevice>::empty());
            vstd::seq_lib::to_multiset_len(extra);
            assert(extra.to_multiset() =~= Multiset::<IoTDevice>::empty());
            assert(last.records().to_multiset() =~= mended.records().to_multiset().add(
                extra.to_multiset(),
            ));
        },
        Some(slot) => {
            lemma_count_at_most_parts(mended.devices@, key_of(slot.0));
            lemma_slot_added(mended, last, mended.rank(key_of(slot.0)), slot.0, slot.1);
        },
    }
    lemma_middle_gains(lower, below, upper, grown_child.records(), extra, device);
}

/// A record added below a child of a regular node whose walk ascended: if
/// what the child handed back has the record where its key belongs, so has
/// the node.
pub proof fn lemma_regular_places(
    before: Node,
    mended: Node,
    last: Node,
    grown_child: Box<Node>,
    promotion: Option<(Option<IoTDevice>, Option<Box<Node>>)>,
    device: IoTDevice,
)
    requires
        regrown(before, mended, last, grown_child, promotion, device.numerical_id),
        ascending(before.records()),
        ascending(child_records(target(before, before.closest(device.numerical_id))))
            ==> outcome_records((grown_child, promotion)) == with_record(
            child_records(target(before, before.closest(device.numerical_id))),
            device,
        ),
    ensures
        last.records() == with_record(before.records(), device),
{
    let id = device.numerical_id;
    let direction = before.closest(id);
    let lower = lower_part(before, direction);
    let upper = upper_part(before, direction);
    let below = child_records(target(before, direction));
    let back = outcome_records((grown_child, promotion));
    lemma_records_parts(before, direction);
    lemma_retargeted_records(before, mended, direction, Some(grown_child));
    lemma_descent_bounds(before, id);
    lemma_ascending_never_descends(below);
    assert(back == with_record(below, device));
    match promotion {
        None => {
            assert(back =~= grown_child.records());
        },
        Some(slot) => {
            lemma_promoted_rank(before, back, grown_child.records().len() as int, device);
            assert(back[grown_child.records().len() as int] == slot.0.unwrap());
            lemma_slot_behind_child(mended, last, direction, slot.0, slot.1);
        },
    }
    assert(last.records() =~= lower + back + upper);
    lemma_with_record_in_middle(lower, below, upper, device);
}

/// Any record of what a child handed back belongs, by its key, right behind
/// the slot in front of that child.
pub proof fn lemma_promoted_rank(before: Node, back: Seq<IoTDevice>, index: int, device: IoTDevice)
    requires
        before.slots_ok(),
        ascending(before.records()),
        back == with_record(
            child_records(target(before, before.closest(device.numerical_id))),
            device,
        ),
        0 <= index < back.len(),
    ensures
        count_at_most(before.devices@, back[index].numerical_id) == before.rank(
            device.numerical_id,
        ),
{
    let id = device.numerical_id;
    let below = child_records(target(before, before.closest(id)));
    let r = before.rank(id);
    let at = position(below, id);
    let promoted = back[index];
    lemma_descent_bounds(before, id);
    lemma_ascending_never_descends(below);
    crate::btree::order::lemma_position_parts(below, id);
    lemma_count_at_most_parts(before.devices@, id);
    assert forall|j: int| 0 <= j < r implies key_of(#[trigger] before.devices@[j])
        <= promoted.numerical_id by {
        if index < at {
            assert(back[index] == below[index]);
        } else if index > at {
            assert(back[index] == below[index - 1]);
        }
    }
    assert forall|j: int| r <= j < before.devices@.len() implies key_of(
        #[trigger] before.devices@[j],
    ) > promoted.numerical_id by {
        if index < at {
            assert(back[index] == below[index]);
        } else if index > at {
            assert(back[index] == below[index - 1]);
        }
    }
    lemma_count_at_most_is(before.devices@, promoted.numerical_id, r);
}

/// The slot that a key led to goes back, by its own key, to where it was.
pub proof fn lemma_slot_returns(devices: Seq<Option<IoTDevice>>, id: u64)
    requires
        crate::btree::node::sorted_slots(devices),
        count_at_most(devices, id) > 0,
    ensures
        0 < count_at_most(devices, id) <= devices.len(),
        count_at_most(
            devices.remove(count_at_most(devices, id) - 1),
            key_of(devices[count_at_most(devices, id) - 1]),
        ) == count_at_most(devices, id) - 1,
        devices.remove(count_at_most(devices, id) - 1).insert(
            count_at_most(devices, id) - 1,
            devices[count_at_most(devices, id) - 1],
        ) == devices,
{
    let index = count_at_most(devices, id) - 1;
    lemma_count_at_most_parts(devices, id);
    let taken = devices.remove(index);
    let key = key_of(devices[index]);
    assert forall|j: int| 0 <= j < index implies key_of(#[trigger] taken[j]) <= key by {
        assert(taken[j] == devices[j]);
        assert(key_of(devices[j]) <= key_of(devices[index]));
    }
    assert forall|j: int| index <= j < taken.len() implies key_of(#[trigger] taken[j]) > key by {
        assert(taken[j] == devices[j + 1]);
    }
    lemma_count_at_most_is(taken, key, index);
    assert(taken.insert(index, devices[index]) =~= devices);
}

/// The node keeps its shape and height when a child is replaced by a grown
/// one and a promoted slot is added.
pub proof fn lemma_regrown_shaped(
    before: Node,
    mended: Node,
    last: Node,
    grown_child: Box<Node>,
    promotion: Option<(Option<IoTDevice>, Option<Box<Node>>)>,
    order: usize,
    id: u64,
)
    requires
        before.shaped(order),
        before.node_type == NodeType::Regular,
        regrown(before, mended, last, grown_child, promotion, id),
        last.node_type == NodeType::Regular,
        last.slots_ok(),
        grown(*target(before, before.closest(id)).unwrap(), (grown_child, promotion), order, false),
    ensures
        last.shaped(order),
        last.height() == before.height(),
        last.devices@.len() == before.devices@.len() + (if promotion is Some {
            1int
        } else {
            0int
        }),
{
    let direction = before.closest(id);
    assert(child_height(mended.left_child) == child_height(before.left_child));
    assert forall|i: int| 0 <= i < mended.children@.len() implies match #[trigger] mended.children@[i] {
        None => false,
        Some(c) => c.well_formed(order, false) && c.height() == child_height(mended.left_child),
    } by {
        match direction {
            Direction::Left => {
                assert(mended.children@[i] == before.children@[i]);
            },
            Direction::Right(index) => {
                if i != index {
                    assert(mended.children@[i] == before.children@[i]);
                }
            },
        }
    }
    match promotion {
        None => {},
        Some(slot) => {
            let at = mended.rank(key_of(slot.0));
            lemma_count_at_most_parts(mended.devices@, key_of(slot.0));
            assert forall|i: int| 0 <= i < last.children@.len() implies match #[trigger] last.children@[i] {
                None => false,
                Some(c) => c.well_formed(order, false) && c.height() == child_height(
                    last.left_child,
                ),
            } by {
                if i < at {
                    assert(last.children@[i] == mended.children@[i]);
                } else if i > at {
                    assert(last.children@[i] == mended.children@[i - 1]);
                }
            }
        },
    }
}

/// A record added below a child of a regular node: if the walk of what the
/// child handed back gained the record, so did the walk of the node, once
/// the grown child and a promoted slot are in their places.
pub proof fn lemma_regular_insert(
    before: Node,
    mended: Node,
    last: Node,
    grown_child: Box<Node>,
    promotion: Option<(Option<IoTDevice>, Option<Box<Node>>)>,
    device: IoTDevice,
)
    requires
        regrown(before, mended, last, grown_child, promotion, device.numerical_id),
        holds_one_more(
            child_records(target(before, before.closest(device.numerical_id))),
            outcome_records((grown_child, promotion)),
            device,
        ),
    ensures
        holds_one_more(before.records(), last.records(), device),
{
    lemma_regular_gains(before, mended, last, grown_child, promotion, device);
    if ascending(before.records()) {
        lemma_regular_places(before, mended, last, grown_child, promotion, device);
    }
}

} // verus!
