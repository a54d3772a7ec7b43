//! A node of the B-tree: sorted slots, each with a record and a child.
use vstd::prelude::*;
use crate::device::IoTDevice;

verus! {

/// The two shapes of a node. A leaf holds records only; a regular node has a
/// left child and one child to the right of every record.
#[derive(PartialEq, Eq, Structural, Clone, Copy, Debug)]
pub enum NodeType {
    Leaf,
    Regular,
}

/// Where a key leads inside a node: before the first slot, or to a slot.
#[derive(PartialEq, Eq, Structural, Clone, Copy, Debug)]
pub enum Direction {
    Left,
    Right(usize),
}

/// A node: slot `i` is the pair `(devices[i], children[i])`, and `left_child`
/// is the child in front of the first slot.
pub struct Node {
    pub devices: Vec<Option<IoTDevice>>,
    pub children: Vec<Option<Box<Node>>>,
    pub left_child: Option<Box<Node>>,
    pub node_type: NodeType,
}

/// The key of a slot's record.
pub open spec fn key_of(device: Option<IoTDevice>) -> u64 {
    device.unwrap().numerical_id
}

/// Every slot holds a record, and the keys never descend from left to right.
pub open spec fn sorted_slots(devices: Seq<Option<IoTDevice>>) -> bool {
    &&& forall|i: int| 0 <= i < devices.len() ==> (#[trigger] devices[i]) is Some
    &&& forall|i: int, j: int|
        0 <= i <= j < devices.len() ==> key_of(#[trigger] devices[i]) <= key_of(
            #[trigger] devices[j],
        )
}

/// How many slots carry a key that is at most `key`.
pub open spec fn count_at_most(devices: Seq<Option<IoTDevice>>, key: u64) -> int
    decreases devices.len(),
{
    if devices.len() == 0 {
        0
    } else {
        count_at_most(devices.drop_last(), key) + if key_of(devices.last()) <= key {
            1int
        } else {
            0int
        }
    }
}

/// The count of slots at most `key` is the one index that parts the slots
/// into those at most `key` and those above it.
pub proof fn lemma_count_at_most_is(devices: Seq<Option<IoTDevice>>, key: u64, p: int)
    requires
        0 <= p <= devices.len(),
        forall|j: int| 0 <= j < p ==> key_of(#[trigger] devices[j]) <= key,
        forall|j: int| p <= j < devices.len() ==> key_of(#[trigger] devices[j]) > key,
    ensures
        count_at_most(devices, key) == p,
    decreases devices.len(),
{
    if devices.len() > 0 {
        let front = devices.drop_last();
        if p == devices.len() {
            lemma_count_at_most_is(front, key, p - 1);
        } else {
            lemma_count_at_most_is(front, key, p);
        }
    }
}

/// In sorted slots, the slots at most `key` are exactly the first
/// `count_at_most` ones.
pub proof fn lemma_count_at_most_parts(devices: Seq<Option<IoTDevice>>, key: u64)
    requires
        sorted_slots(devices),
    ensures
        0 <= count_at_most(devices, key) <= devices.len(),
        forall|j: int|
            0 <= j < count_at_most(devices, key) ==> key_of(#[trigger] devices[j]) <= key,
        forall|j: int|
            count_at_most(devices, key) <= j < devices.len() ==> key_of(#[trigger] devices[j])
                > key,
    decreases devices.len(),
{
    if devices.len() > 0 {
        let front = devices.drop_last();
        assert forall|i: int, j: int| 0 <= i <= j < front.len() implies key_of(
            #[trigger] front[i],
        ) <= key_of(#[trigger] front[j]) by {
            assert(front[i] == devices[i] && front[j] == devices[j]);
        }
        assert forall|i: int| 0 <= i < front.len() implies (#[trigger] front[i]) is Some by {
            assert(front[i] == devices[i]);
        }
        lemma_count_at_most_parts(front, key);
        let last = devices.len() - 1;
        if key_of(devices.last()) <= key {
            assert forall|j: int| 0 <= j < front.len() implies key_of(#[trigger] front[j])
                <= key by {
                assert(front[j] == devices[j]);
                assert(key_of(devices[j]) <= key_of(devices[last]));
            }
            lemma_count_at_most_is(front, key, front.len() as int);
        } else {
            assert forall|j: int|
                count_at_most(devices, key) <= j < devices.len() implies key_of(
                #[trigger] devices[j],
            ) > key by {
                if j < last {
                    assert(front[j] == devices[j]);
                }
            }
        }
        assert forall|j: int| 0 <= j < count_at_most(devices, key) implies key_of(
            #[trigger] devices[j],
        ) <= key by {
            if j < last {
                assert(front[j] == devices[j]);
            }
        }
    }
}

/// A run of sorted slots is sorted.
pub proof fn lemma_sorted_subrange(devices: Seq<Option<IoTDevice>>, from: int, to: int)
    requires
        sorted_slots(devices),
        0 <= from <= to <= devices.len(),
    ensures
        sorted_slots(devices.subrange(from, to)),
{
    let run = devices.subrange(from, to);
    assert forall|i: int| 0 <= i < run.len() implies (#[trigger] run[i]) is Some by {
        assert(run[i] == devices[from + i]);
    }
    assert forall|i: int, j: int| 0 <= i <= j < run.len() implies key_of(#[trigger] run[i])
        <= key_of(#[trigger] run[j]) by {
        assert(run[i] == devices[from + i] && run[j] == devices[from + j]);
    }
}

/// The records below an optional child, in the order of a walk.
pub open spec fn child_records(child: Option<Box<Node>>) -> Seq<IoTDevice>
    decreases child,
{
    match child {
        None => Seq::empty(),
        Some(node) => node.records(),
    }
}

/// The record of a slot, as a sequence of length one (or none).
pub open spec fn slot_record(device: Option<IoTDevice>) -> Seq<IoTDevice> {
    match device {
        None => Seq::empty(),
        Some(d) => seq![d],
    }
}

/// The records of a run of slots: each slot's record, then the records below
/// its child.
pub open spec fn slots_records(
    devices: Seq<Option<IoTDevice>>,
    children: Seq<Option<Box<Node>>>,
) -> Seq<IoTDevice>
    decreases children, devices.len(),
{
    if devices.len() == 0 || children.len() == 0 {
        Seq::empty()
    } else {
        slots_records(devices.drop_last(), children.drop_last()) + slot_record(devices.last())
            + child_records(children.last())
    }
}

/// The height of the subtree below an optional child; none has height 0.
pub open spec fn child_height(child: Option<Box<Node>>) -> nat
    decreases child,
{
    match child {
        None => 0,
        Some(node) => node.height(),
    }
}

/// The fewest children a regular node may have: two at the root, half the
/// order everywhere else.
pub open spec fn min_children(order: usize, level: int) -> int {
    if level > 0 {
        order as int / 2
    } else {
        2
    }
}

/// The fill rules below an optional child; no child breaks none.
pub open spec fn child_rules(child: Option<Box<Node>>, order: usize, level: int) -> bool
    decreases child,
{
    match child {
        None => true,
        Some(node) => node.rules_hold(order, level),
    }
}

/// The level of the shallowest leaf below an optional child that stands at
/// `level`; without a child, the largest level there is.
pub open spec fn child_shallowest(child: Option<Box<Node>>, level: int) -> int
    decreases child,
{
    match child {
        None => usize::MAX as int,
        Some(node) => node.shallowest_leaf(level),
    }
}

/// The level of the shallowest leaf below any of these children.
pub open spec fn shallowest_among(children: Seq<Option<Box<Node>>>, level: int) -> int
    decreases children,
{
    if children.len() == 0 {
        usize::MAX as int
    } else {
        vstd::math::min(
            child_shallowest(children.last(), level),
            shallowest_among(children.drop_last(), level),
        )
    }
}

/// The level of the deepest leaf below an optional child that stands at
/// `level`; without a child, 0.
pub open spec fn child_deepest(child: Option<Box<Node>>, level: int) -> int
    decreases child,
{
    match child {
        None => 0,
        Some(node) => node.deepest_leaf(level),
    }
}

/// The level of the deepest leaf below any of these children.
pub open spec fn deepest_among(children: Seq<Option<Box<Node>>>, level: int) -> int
    decreases children,
{
    if children.len() == 0 {
        0
    } else {
        vstd::math::max(
            child_deepest(children.last(), level),
            deepest_among(children.drop_last(), level),
        )
    }
}

/// What an optional reference to a child refers to.
pub open spec fn pointee(child: Option<&Box<Node>>) -> Option<Box<Node>> {
    match child {
        None => None,
        Some(node) => Some(*node),
    }
}

impl Node {
    /// The key in slot `i`.
    pub open spec fn slot_key(self, i: int) -> u64 {
        key_of(self.devices@[i])
    }

    /// The invariant of a single node: as many children as records, a record
    /// in every slot, keys sorted.
    pub open spec fn slots_ok(self) -> bool {
        &&& self.devices@.len() == self.children@.len()
        &&& sorted_slots(self.devices@)
    }

    /// The number of slots whose key is at most `key`: the position at which a
    /// record with that key is added.
    pub open spec fn rank(self, key: u64) -> int {
        count_at_most(self.devices@, key)
    }

    /// The slot that `key` leads to: the last one whose key is at most `key`,
    /// and the left child where there is none.
    pub open spec fn closest(self, key: u64) -> Direction {
        if self.rank(key) == 0 {
            Direction::Left
        } else {
            Direction::Right((self.rank(key) - 1) as usize)
        }
    }

    /// The index of the first slot that holds a record with this key.
    pub open spec fn first_match(self, key: u64, i: int) -> bool {
        &&& 0 <= i < self.devices@.len()
        &&& self.devices@[i] is Some
        &&& key_of(self.devices@[i]) == key
        &&& forall|j: int|
            0 <= j < i ==> !((#[trigger] self.devices@[j]) is Some && key_of(self.devices@[j])
                == key)
    }

    /// All records at and below this node, in the order of a walk: the left
    /// child first, then slot by slot.
    pub open spec fn records(self) -> Seq<IoTDevice>
        decreases self,
    {
        child_records(self.left_child) + slots_records(self.devices@, self.children@)
    }

    /// The index of the slot at which a split parts the node.
    pub open spec fn middle(self) -> int {
        self.devices@.len() as int / 2
    }

    /// The number of levels below this node, read along its left children.
    pub open spec fn height(self) -> nat
        decreases self,
    {
        match self.node_type {
            NodeType::Leaf => 0,
            NodeType::Regular => 1 + child_height(self.left_child),
        }
    }

    /// The shape of a subtree in a tree of the given order, but for the number
    /// of slots of its topmost node: the slots are in order; a leaf has no
    /// child at all; a regular node has a slot, a left child and a child in
    /// every slot, all well formed and of one height.
    pub open spec fn shaped(self, order: usize) -> bool
        decreases self, 0int,
    {
        &&& self.slots_ok()
        &&& match self.node_type {
            NodeType::Leaf => {
                &&& self.left_child is None
                &&& forall|i: int|
                    0 <= i < self.children@.len() ==> (#[trigger] self.children@[i]) is None
            },
            NodeType::Regular => {
                &&& self.devices@.len() >= 1
                &&& match self.left_child {
                    None => false,
                    Some(left) => left.well_formed(order, false),
                }
                &&& forall|i: int|
                    0 <= i < self.children@.len() ==> match #[trigger] self.children@[i] {
                        None => false,
                        Some(child) => child.well_formed(order, false) && child.height()
                            == child_height(self.left_child),
                    }
            },
        }
    }

    /// The invariant of a whole subtree in a tree of the given order: it has
    /// the shape of one, its topmost node has at most `order` children, and
    /// at least `(order - 1) / 2` slots unless it is the root.
    pub open spec fn well_formed(self, order: usize, is_root: bool) -> bool
        decreases self, 1int,
    {
        &&& self.shaped(order)
        &&& self.devices@.len() + 1 <= order
        &&& is_root || self.devices@.len() >= (order - 1) / 2
    }

    /// The fill rules as the validator reads them, for a node at `level`: no
    /// node has more than `order` children, and a regular node has at least
    /// `min_children` and only children that keep the rules.
    pub open spec fn rules_hold(self, order: usize, level: int) -> bool
        decreases self,
    {
        match self.node_type {
            NodeType::Leaf => self.children@.len() + 1 <= order,
            NodeType::Regular => {
                &&& self.children@.len() + 1 <= order
                &&& self.children@.len() + 1 >= min_children(order, level)
                &&& child_rules(self.left_child, order, level + 1)
                &&& forall|i: int|
                    0 <= i < self.children@.len() ==> child_rules(
                        #[trigger] self.children@[i],
                        order,
                        level + 1,
                    )
            },
        }
    }

    /// The level of the shallowest leaf at or below this node, which stands at
    /// `level`. A regular node without any child reports the largest level.
    pub open spec fn shallowest_leaf(self, level: int) -> int
        decreases self,
    {
        match self.node_type {
            NodeType::Leaf => level,
            NodeType::Regular => vstd::math::min(
                child_shallowest(self.left_child, level + 1),
                shallowest_among(self.children@, level + 1),
            ),
        }
    }

    /// The level of the deepest leaf at or below this node, which stands at
    /// `level`. A regular node without any child reports its own level.
    pub open spec fn deepest_leaf(self, level: int) -> int
        decreases self,
    {
        match self.node_type {
            NodeType::Leaf => level,
            NodeType::Regular => vstd::math::max(
                level,
                vstd::math::max(
                    child_deepest(self.left_child, level + 1),
                    deepest_among(self.children@, level + 1),
                ),
            ),
        }
    }

    /// An empty leaf.
    pub fn new_leaf() -> (node: Box<Node>)
        ensures
            node.node_type == NodeType::Leaf,
            node.devices@.len() == 0,
            node.children@.len() == 0,
            node.left_child is None,
    {
        Node::new(NodeType::Leaf)
    }

    /// An empty regular node, without a left child yet.
    pub fn new_regular() -> (node: Box<Node>)
        ensures
            node.node_type == NodeType::Regular,
            node.devices@.len() == 0,
            node.children@.len() == 0,
            node.left_child is None,
    {
        Node::new(NodeType::Regular)
    }

    /// An empty node of the given shape.
    pub fn new(node_type: NodeType) -> (node: Box<Node>)
        ensures
            node.node_type == node_type,
            node.devices@.len() == 0,
            node.children@.len() == 0,
            node.left_child is None,
    {
        Box::new(Node { left_child: None, devices: Vec::new(), children: Vec::new(), node_type })
    }

    /// The length of a node counts its children, the left one included: one
    /// more than its slots.
    pub fn len(&self) -> (length: usize)
        requires
            self.children@.len() < usize::MAX,
        ensures
            length == self.children@.len() + 1,
    {
        self.children.len() + 1
    }

    /// Splits the node in the middle. The slot at index `slots / 2` leaves:
    /// its record is returned, to be promoted, and its child becomes the left
    /// child of a new sibling of the same shape. The slots behind it move to
    /// the sibling, in order; the slots before it stay.
    pub fn split(&mut self) -> (parts: (IoTDevice, Box<Node>))
        requires
            old(self).slots_ok(),
            old(self).devices@.len() >= 1,
        ensures
            Some(parts.0) == old(self).devices@[old(self).middle()],
            final(self).devices@ == old(self).devices@.subrange(0, old(self).middle()),
            final(self).children@ == old(self).children@.subrange(0, old(self).middle()),
            final(self).left_child == old(self).left_child,
            final(self).node_type == old(self).node_type,
            parts.1.node_type == old(self).node_type,
            parts.1.left_child == old(self).children@[old(self).middle()],
            parts.1.devices@ == old(self).devices@.subrange(
                old(self).middle() + 1,
                old(self).devices@.len() as int,
            ),
            parts.1.children@ == old(self).children@.subrange(
                old(self).middle() + 1,
                old(self).devices@.len() as int,
            ),
            old(self).records() == final(self).records() + seq![parts.0] + parts.1.records(),
    {
        let mut sibling = Node::new(self.node_type);
        let no_of_devices = self.devices.len();
        let split_at = no_of_devices / 2usize;

        let dev = self.devices.remove(split_at);
        let node = self.children.remove(split_at);
        let ghost upper_devices = self.devices@;
        let ghost upper_children = self.children@;

        let remaining = self.devices.len();
        let mut moved: usize = split_at;
        while moved < remaining
            invariant
                split_at <= moved <= remaining,
                remaining == upper_devices.len(),
                upper_devices.len() == upper_children.len(),
                self.devices@ == upper_devices.subrange(0, remaining - (moved - split_at)),
                self.children@ == upper_children.subrange(0, remaining - (moved - split_at)),
                sibling.devices@ == upper_devices.subrange(
                    remaining - (moved - split_at),
                    remaining as int,
                ),
                sibling.children@ == upper_children.subrange(
                    remaining - (moved - split_at),
                    remaining as int,
                ),
                sibling.node_type == old(self).node_type,
                sibling.left_child is None,
                self.left_child == old(self).left_child,
                self.node_type == old(self).node_type,
            decreases remaining - moved,
        {
            let ghost kept = remaining - (moved - split_at);
            let device = self.devices.pop().unwrap();
            let child = self.children.pop().unwrap();
            sibling.devices.insert(0, device);
            sibling.children.insert(0, child);
            moved += 1;
            assert(self.devices@ =~= upper_devices.subrange(0, kept - 1));
            assert(self.children@ =~= upper_children.subrange(0, kept - 1));
            assert(sibling.devices@ =~= upper_devices.subrange(kept - 1, remaining as int));
            assert(sibling.children@ =~= upper_children.subrange(kept - 1, remaining as int));
        }
        sibling.add_left_child(node);
        assert(self.devices@ =~= old(self).devices@.subrange(0, split_at as int));
        assert(self.children@ =~= old(self).children@.subrange(0, split_at as int));
        assert(sibling.devices@ =~= old(self).devices@.subrange(
            split_at + 1,
            no_of_devices as int,
        ));
        assert(sibling.children@ =~= old(self).children@.subrange(
            split_at + 1,
            no_of_devices as int,
        ));
        proof {
            crate::btree::walk::lemma_split_records(*old(self), *self, *sibling);
        }
        (dev.unwrap(), sibling)
    }

    /// Replaces the left child.
    pub fn add_left_child(&mut self, tree: Option<Box<Node>>)
        ensures
            final(self).left_child == tree,
            final(self).devices == old(self).devices,
            final(self).children == old(self).children,
            final(self).node_type == old(self).node_type,
    {
        self.left_child = tree;
    }

    /// Finds the last slot whose key is at most `key`. Equal keys lead to the
    /// rightmost of them.
    pub fn find_closest_index(&self, key: u64) -> (direction: Direction)
        requires
            self.slots_ok(),
        ensures
            direction == self.closest(key),
            0 <= self.rank(key) <= self.devices@.len(),
            forall|j: int| 0 <= j < self.rank(key) ==> key_of(#[trigger] self.devices@[j]) <= key,
            forall|j: int|
                self.rank(key) <= j < self.devices@.len() ==> key_of(#[trigger] self.devices@[j])
                    > key,
            direction matches Direction::Right(p) ==> p + 1 == self.rank(key),
    {
        let mut index = Direction::Left;
        let mut i: usize = 0;
        while i < self.devices.len()
            invariant_except_break
                i <= self.devices@.len(),
                forall|j: int| 0 <= j < i ==> key_of(#[trigger] self.devices@[j]) <= key,
                index == (if i == 0 {
                    Direction::Left
                } else {
                    Direction::Right((i - 1) as usize)
                }),
            invariant
                self.slots_ok(),
            ensures
                i <= self.devices@.len(),
                forall|j: int| 0 <= j < i ==> key_of(#[trigger] self.devices@[j]) <= key,
                forall|j: int| i <= j < self.devices@.len() ==> key_of(#[trigger] self.devices@[j]) > key,
                index == (if i == 0 {
                    Direction::Left
                } else {
                    Direction::Right((i - 1) as usize)
                }),
            decreases self.devices@.len() - i,
        {
            if let Some(dev) = &self.devices[i] {
                if dev.numerical_id <= key {
                    index = Direction::Right(i);
                } else {
                    proof {
                        assert forall|j: int| i <= j < self.devices@.len() implies key_of(
                            #[trigger] self.devices@[j],
                        ) > key by {
                            assert(key_of(self.devices@[i as int]) <= key_of(self.devices@[j]));
                        }
                    }
                    break ;
                }
            }
            i += 1;
        }
        proof {
            lemma_count_at_most_is(self.devices@, key, i as int);
        }
        index
    }

    /// Adds a slot behind the last slot whose key is at most `key`, shifting
    /// the slots after it to the right. Always succeeds; a key that is there
    /// already gets a second slot.
    pub fn add_key(&mut self, key: u64, value: (Option<IoTDevice>, Option<Box<Node>>)) -> (added:
        bool)
        requires
            old(self).slots_ok(),
        ensures
            added,
            final(self).devices@ == old(self).devices@.insert(old(self).rank(key), value.0),
            final(self).children@ == old(self).children@.insert(old(self).rank(key), value.1),
            final(self).left_child == old(self).left_child,
            final(self).node_type == old(self).node_type,
            0 <= old(self).rank(key) <= old(self).devices@.len(),
            value.0 is Some && key_of(value.0) == key ==> final(self).slots_ok(),
    {
        let slots: usize = self.devices.len();
        let pos: usize = match self.find_closest_index(key) {
            Direction::Left => 0,
            Direction::Right(p) => p + 1,
        };
        let (dev, tree) = value;
        let ghost before = self.devices@;
        if pos >= slots {
            self.devices.push(dev);
            self.children.push(tree);
            assert(self.devices@ == before.insert(pos as int, dev));
            assert(self.children@ == old(self).children@.insert(pos as int, tree));
        } else {
            self.devices.insert(pos, dev);
            self.children.insert(pos, tree);
        }
        proof {
            if dev is Some && key_of(dev) == key {
                let after = self.devices@;
                assert forall|i: int| 0 <= i < after.len() implies (#[trigger] after[i]) is Some by {
                    if i < pos {
                        assert(after[i] == before[i]);
                    } else if i > pos {
                        assert(after[i] == before[i - 1]);
                    }
                }
                assert forall|i: int, j: int| 0 <= i <= j < after.len() implies key_of(
                    #[trigger] after[i],
                ) <= key_of(#[trigger] after[j]) by {
                    let ki = if i < pos {
                        i
                    } else {
                        i - 1
                    };
                    let kj = if j < pos {
                        j
                    } else {
                        j - 1
                    };
                    if i != pos {
                        assert(after[i] == before[ki]);
                        assert(old(self).slot_key(ki) == key_of(before[ki]));
                    }
                    if j != pos {
                        assert(after[j] == before[kj]);
                        assert(old(self).slot_key(kj) == key_of(before[kj]));
                    }
                }
            }
        }
        true
    }

    /// Takes out what `key` leads to: the left child, paired with `key` and no
    /// record, or the closest slot with its key, record and child.
    pub fn remove_key(&mut self, id: u64) -> (removed: Option<
        (u64, (Option<IoTDevice>, Option<Box<Node>>)),
    >)
        requires
            old(self).slots_ok(),
        ensures
            final(self).node_type == old(self).node_type,
            match old(self).closest(id) {
                Direction::Left => {
                    &&& removed == Some((id, (None::<IoTDevice>, old(self).left_child)))
                    &&& final(self).left_child is None
                    &&& final(self).devices == old(self).devices
                    &&& final(self).children == old(self).children
                },
                Direction::Right(index) => {
                    &&& index < old(self).devices@.len()
                    &&& removed == Some(
                        (
                            old(self).slot_key(index as int),
                            (old(self).devices@[index as int], old(self).children@[index as int]),
                        ),
                    )
                    &&& final(self).left_child == old(self).left_child
                    &&& final(self).devices@ == old(self).devices@.remove(index as int)
                    &&& final(self).children@ == old(self).children@.remove(index as int)
                },
            },
    {
        match self.find_closest_index(id) {
            Direction::Left => {
                let tree = self.left_child.take();
                Some((id, (None, tree)))
            },
            Direction::Right(index) => {
                let dev = self.devices.remove(index);
                let tree = self.children.remove(index);
                let key = dev.as_ref().unwrap().numerical_id;
                Some((key, (dev, tree)))
            },
        }
    }

    /// The first record among the slots whose key is `key`.
    pub fn get_device(&self, key: u64) -> (found: Option<&IoTDevice>)
        ensures
            match found {
                Some(device) => exists|i: int|
                    self.first_match(key, i) && self.devices@[i] == Some(*device),
                None => forall|i: int|
                    0 <= i < self.devices@.len() ==> !((#[trigger] self.devices@[i]) is Some
                        && key_of(self.devices@[i]) == key),
            },
    {
        let mut i: usize = 0;
        while i < self.devices.len()
            invariant
                i <= self.devices@.len(),
                forall|j: int|
                    0 <= j < i ==> !((#[trigger] self.devices@[j]) is Some && key_of(
                        self.devices@[j],
                    ) == key),
            decreases self.devices@.len() - i,
        {
            if let Some(device) = &self.devices[i] {
                if device.numerical_id == key {
                    assert(self.first_match(key, i as int));
                    return Some(device);
                }
            }
            i += 1;
        }
        None
    }

    /// The child that `key` leads to: the left child, or the child of the
    /// closest slot.
    pub fn get_child(&self, key: u64) -> (child: Option<&Box<Node>>)
        requires
            self.slots_ok(),
        ensures
            match self.closest(key) {
                Direction::Left => pointee(child) == self.left_child,
                Direction::Right(i) => i < self.children@.len() && pointee(child)
                    == self.children@[i as int],
            },
    {
        match self.find_closest_index(key) {
            Direction::Left => self.left_child.as_ref(),
            Direction::Right(i) => self.children[i].as_ref(),
        }
    }
}

} // verus!
