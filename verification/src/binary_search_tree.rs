//! A registry of devices on a binary search tree. The tree is not balanced.
//!
//! A device goes to the left of every device whose key is not above its own,
//! so a walk from left to right meets the keys in descending order, and of
//! two devices with one key the one that came later is met first.
use vstd::prelude::*;
use crate::device::IoTDevice;

verus! {

/// A node of the tree: a device, the subtree of the keys that are not
/// smaller, and the subtree of the smaller keys.
pub struct Node {
    pub dev: IoTDevice,
    pub left: Option<Box<Node>>,
    pub right: Option<Box<Node>>,
}

/// The devices of a tree, as a walk from left to right meets them.
pub open spec fn tree_records(tree: Option<Box<Node>>) -> Seq<IoTDevice>
    decreases tree,
{
    match tree {
        None => Seq::empty(),
        Some(node) => tree_records(node.left) + seq![node.dev] + tree_records(node.right),
    }
}

/// The search order: at every node, no key on the left is smaller than the
/// key of the node, and every key on the right is.
pub open spec fn ordered(tree: Option<Box<Node>>) -> bool
    decreases tree,
{
    match tree {
        None => true,
        Some(node) => {
            &&& ordered(node.left)
            &&& ordered(node.right)
            &&& forall|i: int|
                0 <= i < tree_records(node.left).len() ==> (#[trigger] tree_records(
                    node.left,
                )[i]).numerical_id >= node.dev.numerical_id
            &&& forall|i: int|
                0 <= i < tree_records(node.right).len() ==> (#[trigger] tree_records(
                    node.right,
                )[i]).numerical_id < node.dev.numerical_id
        },
    }
}

/// The keys never rise from each device to the next.
pub open spec fn descending(records: Seq<IoTDevice>) -> bool {
    forall|i: int, j: int|
        0 <= i <= j < records.len() ==> (#[trigger] records[i]).numerical_id >= (
        #[trigger] records[j]).numerical_id
}

/// The number of devices in front whose key is above `key`: the place of a
/// new device with that key.
pub open spec fn place(records: Seq<IoTDevice>, key: u64) -> int
    decreases records.len(),
{
    if records.len() == 0 || records.first().numerical_id <= key {
        0
    } else {
        1 + place(records.drop_first(), key)
    }
}

/// The devices with one more device put at its place.
pub open spec fn with_device(records: Seq<IoTDevice>, device: IoTDevice) -> Seq<IoTDevice> {
    records.insert(place(records, device.numerical_id), device)
}

/// The last device with this key, if there is one.
pub open spec fn last_with_key(records: Seq<IoTDevice>, key: u64) -> Option<IoTDevice>
    decreases records.len(),
{
    if records.len() == 0 {
        None
    } else if records.last().numerical_id == key {
        Some(records.last())
    } else {
        last_with_key(records.drop_last(), key)
    }
}

/// The place of a key is the first index whose device has no greater key.
pub proof fn lemma_place_is(records: Seq<IoTDevice>, key: u64, p: int)
    requires
        0 <= p <= records.len(),
        forall|i: int| 0 <= i < p ==> (#[trigger] records[i]).numerical_id > key,
        p < records.len() ==> records[p].numerical_id <= key,
    ensures
        place(records, key) == p,
    decreases records.len(),
{
    if p > 0 {
        let rest = records.drop_first();
        assert(records[0].numerical_id > key);
        assert forall|i: int| 0 <= i < p - 1 implies (#[trigger] rest[i]).numerical_id > key by {
            assert(rest[i] == records[i + 1]);
        }
        if p - 1 < rest.len() {
            assert(rest[p - 1] == records[p]);
        }
        lemma_place_is(rest, key, p - 1);
    }
}

/// All devices in front of the place of a key have a greater key, and the
/// device at that place has not.
pub proof fn lemma_place_parts(records: Seq<IoTDevice>, key: u64)
    ensures
        0 <= place(records, key) <= records.len(),
        forall|i: int|
            0 <= i < place(records, key) ==> (#[trigger] records[i]).numerical_id > key,
        place(records, key) < records.len() ==> records[place(records, key)].numerical_id <= key,
    decreases records.len(),
{
    if records.len() > 0 && records.first().numerical_id > key {
        let rest = records.drop_first();
        lemma_place_parts(rest, key);
        assert forall|i: int| 0 <= i < place(records, key) implies (
        #[trigger] records[i]).numerical_id > key by {
            if i > 0 {
                assert(rest[i - 1] == records[i]);
            }
        }
        if place(records, key) < records.len() {
            assert(rest[place(rest, key)] == records[place(records, key)]);
        }
    }
}

/// The last device with a key, looked for in two runs of devices: in the
/// second run first.
pub proof fn lemma_last_with_key_parts(first: Seq<IoTDevice>, second: Seq<IoTDevice>, key: u64)
    ensures
        last_with_key(first + second, key) == (if last_with_key(second, key) is Some {
            last_with_key(second, key)
        } else {
            last_with_key(first, key)
        }),
    decreases second.len(),
{
    if second.len() == 0 {
        assert(first + second =~= first);
    } else {
        let whole = first + second;
        assert(whole.last() == second.last());
        assert(whole.drop_last() =~= first + second.drop_last());
        lemma_last_with_key_parts(first, second.drop_last(), key);
    }
}

/// Where no device has the key, there is no last one with it.
pub proof fn lemma_last_with_key_none(records: Seq<IoTDevice>, key: u64)
    requires
        forall|i: int| 0 <= i < records.len() ==> (#[trigger] records[i]).numerical_id != key,
    ensures
        last_with_key(records, key) is None,
    decreases records.len(),
{
    if records.len() > 0 {
        let front = records.drop_last();
        assert(records.last() == records[records.len() - 1]);
        assert forall|i: int| 0 <= i < front.len() implies (#[trigger] front[i]).numerical_id
            != key by {
            assert(front[i] == records[i]);
        }
        lemma_last_with_key_none(front, key);
    }
}

/// What is found as the last device with a key has that key and is one of
/// the devices; where nothing is found, no device has the key.
pub proof fn lemma_last_with_key_found(records: Seq<IoTDevice>, key: u64)
    ensures
        match last_with_key(records, key) {
            Some(device) => device.numerical_id == key && records.contains(device),
            None => forall|i: int|
                0 <= i < records.len() ==> (#[trigger] records[i]).numerical_id != key,
        },
    decreases records.len(),
{
    if records.len() > 0 {
        let front = records.drop_last();
        let last = records.len() - 1;
        assert(records.last() == records[last]);
        if records.last().numerical_id != key {
            lemma_last_with_key_found(front, key);
            match last_with_key(front, key) {
                Some(device) => {
                    let i = choose|i: int| 0 <= i < front.len() && front[i] == device;
                    assert(records[i] == device);
                },
                None => {
                    assert forall|i: int| 0 <= i < records.len() implies (
                    #[trigger] records[i]).numerical_id != key by {
                        if i < last {
                            assert(front[i] == records[i]);
                        }
                    }
                },
            }
        }
    }
}

/// A walk of an ordered tree meets the keys in descending order.
pub proof fn lemma_ordered_descends(tree: Option<Box<Node>>)
    requires
        ordered(tree),
    ensures
        descending(tree_records(tree)),
    decreases tree,
{
    match tree {
        None => {},
        Some(node) => {
            lemma_ordered_descends(node.left);
            lemma_ordered_descends(node.right);
            let left = tree_records(node.left);
            let right = tree_records(node.right);
            let all = tree_records(tree);
            let key = node.dev.numerical_id;
            assert forall|i: int, j: int| 0 <= i <= j < all.len() implies (
            #[trigger] all[i]).numerical_id >= (#[trigger] all[j]).numerical_id by {
                if i < left.len() {
                    assert(all[i] == left[i]);
                    assert(left[i].numerical_id >= key);
                } else if i > left.len() {
                    assert(all[i] == right[i - left.len() - 1]);
                    assert(right[i - left.len() - 1].numerical_id < key);
                }
                if j < left.len() {
                    assert(all[j] == left[j]);
                } else if j > left.len() {
                    assert(all[j] == right[j - left.len() - 1]);
                    assert(right[j - left.len() - 1].numerical_id < key);
                }
            }
        },
    }
}

impl Node {
    /// A tree of one device.
    pub fn new(dev: IoTDevice) -> (tree: Option<Box<Node>>)
        ensures
            tree == Some(Box::new(Node { dev, left: None, right: None })),
            tree_records(tree) == seq![dev],
            ordered(tree),
    {
        let tree = Some(Box::new(Node { dev, left: None, right: None }));
        proof {
            assert(tree_records(None) =~= Seq::<IoTDevice>::empty());
            assert(tree_records(tree) =~= seq![dev]);
            assert(ordered(None));
        }
        tree
    }
}

/// The registry: it owns the root and counts the devices.
pub struct DeviceRegistry {
    root: Option<Box<Node>>,
    pub length: u64,
}

impl View for DeviceRegistry {
    type V = Seq<IoTDevice>;

    /// The devices of the registry, as a walk meets them: by descending key.
    closed spec fn view(&self) -> Seq<IoTDevice> {
        tree_records(self.root)
    }
}

impl DeviceRegistry {
    /// The running count of devices, as the field `length` holds it.
    pub closed spec fn spec_length(self) -> u64 {
        self.length
    }

    /// The invariant of the registry: the tree is in search order, and
    /// `length` counts its devices.
    pub closed spec fn well_formed(self) -> bool {
        ordered(self.root) && self.length == self@.len()
    }

    /// The number of devices, as the field `length` holds it.
    pub fn len(&self) -> (count: u64)
        ensures
            count == self.spec_length(),
    {
        self.length
    }

    /// A registry without devices.
    pub fn new_empty() -> (registry: DeviceRegistry)
        ensures
            registry.well_formed(),
            registry@ == Seq::<IoTDevice>::empty(),
            registry.spec_length() == 0,
    {
        DeviceRegistry { root: None, length: 0 }
    }

    /// Adds a device: in front of the first device whose key is not above
    /// its own.
    pub fn add(&mut self, device: IoTDevice)
        requires
            old(self).well_formed(),
            old(self).spec_length() < u64::MAX,
        ensures
            final(self).well_formed(),
            final(self)@.len() == final(self).spec_length(),
            final(self)@ == with_device(old(self)@, device),
            final(self).spec_length() == old(self).spec_length() + 1,
    {
        self.length += 1;
        let root = self.root.take();
        proof {
            lemma_place_parts(tree_records(root), device.numerical_id);
        }
        self.root = self.add_rec(root, device);
    }

    /// Adds a device to a tree and hands the tree back: to the left of a
    /// node whose key is not above the device's, else to its right.
    fn add_rec(&mut self, node: Option<Box<Node>>, device: IoTDevice) -> (tree: Option<Box<Node>>)
        requires
            ordered(node),
        ensures
            *final(self) == *old(self),
            ordered(tree),
            tree_records(tree) == with_device(tree_records(node), device),
        decreases node,
    {
        match node {
            Some(mut n) => {
                let ghost left = tree_records(n.left);
                let ghost right = tree_records(n.right);
                let ghost all = tree_records(node);
                let ghost key = device.numerical_id;
                if n.dev.numerical_id <= device.numerical_id {
                    n.left = self.add_rec(n.left, device);
                    proof {
                        let at = place(left, key);
                        lemma_place_parts(left, key);
                        assert forall|i: int| 0 <= i < at implies (#[trigger] all[i]).numerical_id
                            > key by {
                            assert(all[i] == left[i]);
                        }
                        if at < left.len() {
                            assert(all[at] == left[at]);
                        } else {
                            assert(all[at] == n.dev);
                        }
                        lemma_place_is(all, key, at);
                        assert(tree_records(Some(n)) =~= with_device(all, device));
                        let grown = tree_records(n.left);
                        assert forall|i: int| 0 <= i < grown.len() implies (
                        #[trigger] grown[i]).numerical_id >= n.dev.numerical_id by {
                            if i < at {
                                assert(grown[i] == left[i]);
                            } else if i > at {
                                assert(grown[i] == left[i - 1]);
                            }
                        }
                    }
                } else {
                    n.right = self.add_rec(n.right, device);
                    proof {
                        let at = place(right, key);
                        let shift = left.len() + 1;
                        lemma_place_parts(right, key);
                        assert forall|i: int| 0 <= i < shift + at implies (
                        #[trigger] all[i]).numerical_id > key by {
                            if i < left.len() {
                                assert(all[i] == left[i]);
                                assert(left[i].numerical_id >= n.dev.numerical_id);
                            } else if i == left.len() {
                                assert(all[i] == n.dev);
                            } else {
                                assert(all[i] == right[i - shift]);
                            }
                        }
                        if at < right.len() {
                            assert(all[shift + at] == right[at]);
                        }
                        lemma_place_is(all, key, shift + at);
                        assert(tree_records(Some(n)) =~= with_device(all, device));
                        let grown = tree_records(n.right);
                        assert forall|i: int| 0 <= i < grown.len() implies (
                        #[trigger] grown[i]).numerical_id < n.dev.numerical_id by {
                            if i < at {
                                assert(grown[i] == right[i]);
                            } else if i > at {
                                assert(grown[i] == right[i - 1]);
                            }
                        }
                    }
                }
                Some(n)
            },
            _ => {
                proof {
                    assert(tree_records(node) =~= Seq::<IoTDevice>::empty());
                    assert(with_device(tree_records(node), device) =~= seq![device]);
                }
                Node::new(device)
            },
        }
    }

    /// Looks a key up: what is found is the device with this key that a walk
    /// meets last, which is the one that was added first.
    pub fn find(&self, numerical_id: u64) -> (found: Option<IoTDevice>)
        requires
            self.well_formed(),
        ensures
            found == last_with_key(self@, numerical_id),
            match found {
                Some(device) => device.numerical_id == numerical_id && self@.contains(device),
                None => forall|i: int|
                    0 <= i < self@.len() ==> (#[trigger] self@[i]).numerical_id != numerical_id,
            },
    {
        proof {
            lemma_last_with_key_found(self@, numerical_id);
        }
        self.find_r(&self.root, numerical_id)
    }

    /// Looks a key up in a tree: at the node, or on the left for a greater
    /// key, or on the right for a smaller one.
    fn find_r(&self, node: &Option<Box<Node>>, numerical_id: u64) -> (found: Option<IoTDevice>)
        requires
            ordered(*node),
        ensures
            found == last_with_key(tree_records(*node), numerical_id),
        decreases node,
    {
        match node {
            Some(n) => {
                let ghost left = tree_records(n.left);
                let ghost right = tree_records(n.right);
                let ghost key = n.dev.numerical_id;
                proof {
                    lemma_last_with_key_parts(left + seq![n.dev], right, numerical_id);
                    lemma_last_with_key_parts(left, seq![n.dev], numerical_id);
                    assert(seq![n.dev].drop_last() =~= Seq::<IoTDevice>::empty());
                    assert(seq![n.dev].last() == n.dev);
                    assert(last_with_key(Seq::<IoTDevice>::empty(), numerical_id) is None);
                    assert(last_with_key(seq![n.dev], numerical_id) == (if key == numerical_id {
                        Some(n.dev)
                    } else {
                        None
                    }));
                }
                if n.dev.numerical_id == numerical_id {
                    proof {
                        lemma_last_with_key_none(right, numerical_id);
                    }
                    Some(n.dev.clone())
                } else if n.dev.numerical_id < numerical_id {
                    proof {
                        lemma_last_with_key_none(right, numerical_id);
                    }
                    self.find_r(&n.left, numerical_id)
                } else {
                    proof {
                        lemma_last_with_key_none(left, numerical_id);
                    }
                    self.find_r(&n.right, numerical_id)
                }
            },
            _ => None,
        }
    }

    /// Walks the tree from left to right and hands back every device it
    /// meets.
    pub fn walk(&self) -> (records: Vec<IoTDevice>)
        ensures
            records@ == self@,
    {
        let mut records: Vec<IoTDevice> = Vec::new();
        self.walk_in_order(&self.root, &mut records);
        proof {
            assert(records@ =~= self@);
        }
        records
    }

    /// Appends the devices of a tree, as a walk from left to right meets
    /// them.
    fn walk_in_order(&self, node: &Option<Box<Node>>, records: &mut Vec<IoTDevice>)
        ensures
            final(records)@ == old(records)@ + tree_records(*node),
        decreases node,
    {
        if let Some(n) = node {
            self.walk_in_order(&n.left, records);
            records.push(n.dev.clone());
            self.walk_in_order(&n.right, records);
            assert(records@ =~= old(records)@ + tree_records(*node));
        } else {
            assert(records@ =~= old(records)@ + tree_records(*node));
        }
    }
}

} // verus!
