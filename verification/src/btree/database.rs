//! The store itself: it owns the root and grows the tree.
use vstd::prelude::*;
use crate::device::IoTDevice;
use crate::btree::growth::{grew, grown, handed_back, holds_one_more, outcome_records};
use crate::btree::growth::{is_lower_half, is_upper_half, lemma_handed_back, overflows};
use crate::btree::growth::{filled_as, inserted_as, lemma_filled_regular, settled_as};
use crate::btree::growth::{lemma_leaf_insert, lemma_new_root_records, lemma_regular_insert};
use crate::btree::growth::{lemma_regrown_shaped, lemma_slot_returns, lemma_split_well_formed};
use crate::btree::node::{child_records, Direction, Node, NodeType};
use crate::btree::node::lemma_count_at_most_parts;
use crate::btree::node::{child_deepest, child_rules, child_shallowest, deepest_among};
use crate::btree::node::{pointee, shallowest_among};
use crate::btree::lookup::{lemma_absent_below, lemma_absent_in_leaf, lemma_found_below};
use crate::btree::order::{ascending, has_key, lemma_ascending_never_descends, never_descends};
use crate::btree::order::{lemma_with_record_ascending, lemma_with_record_never_descends};
use crate::btree::order::with_record;
use crate::btree::validity::lemma_deepest_among_bounds;
use crate::btree::validity::{lemma_deepest_at_least, lemma_height_fits};
use crate::btree::validity::lemma_well_formed_is_valid;
use crate::btree::walk::{leads_into, lemma_slot_among_records, retargeted, target};

verus! {

/// An ordered store of device records, keyed by their identifier.
pub struct DeviceDatabase {
    root: Option<Box<Node>>,
    order: usize,
    pub length: u64,
}

impl View for DeviceDatabase {
    type V = Seq<IoTDevice>;

    /// The records of the store, in the order of a walk.
    closed spec fn view(&self) -> Seq<IoTDevice> {
        child_records(self.root)
    }
}

impl DeviceDatabase {
    /// The order of the tree: the most children a node may have.
    pub closed spec fn spec_order(self) -> usize {
        self.order
    }

    /// The invariant of the store: the order is at least 3, the tree below
    /// the root is well formed, a root there is holds a record, and `length`
    /// counts the records.
    pub closed spec fn well_formed(self) -> bool {
        &&& 3 <= self.order < usize::MAX
        &&& self.length == self@.len()
        &&& match self.root {
            None => true,
            Some(root) => root.well_formed(self.order, true) && root.devices@.len() >= 1,
        }
    }

    /// What the validator decides: there is a root, the tree below it keeps
    /// the fill rules, and its shallowest leaf is as deep as its deepest.
    pub open spec fn is_valid(self) -> bool {
        match self.spec_root() {
            None => false,
            Some(root) => root.rules_hold(self.spec_order(), 0) && root.shallowest_leaf(0)
                == root.deepest_leaf(0),
        }
    }

    /// The levels of the tree can be counted in a `usize`.
    pub open spec fn levels_fit(self) -> bool {
        match self.spec_root() {
            None => true,
            Some(root) => root.deepest_leaf(0) <= usize::MAX,
        }
    }

    /// The running count of records, as the field `length` holds it.
    pub closed spec fn spec_length(self) -> u64 {
        self.length
    }

    /// The topmost node: none as long as the store is empty.
    pub closed spec fn spec_root(self) -> Option<Box<Node>> {
        self.root
    }

    /// What the invariant of the store says, spelled out: it is a walk of
    /// the tree below the root that the view shows, the tree is well formed,
    /// and `length` counts its records.
    pub proof fn lemma_well_formed(self)
        requires
            self.well_formed(),
        ensures
            self@ == child_records(self.spec_root()),
            self@.len() == self.spec_length(),
            self.spec_order() >= 3,
            match self.spec_root() {
                None => true,
                Some(root) => root.well_formed(self.spec_order(), true) && root.devices@.len()
                    >= 1,
            },
            self.levels_fit(),
            self.is_valid() == (self.spec_length() > 0),
    {
        if let Some(tree) = self.root {
            lemma_height_fits(*tree, self.order, true);
            lemma_well_formed_is_valid(*tree, self.order, true, 0);
            lemma_slot_among_records(*tree, 0);
        }
    }

    /// The number of records added, as the field `length` holds it.
    pub fn len(&self) -> (count: u64)
        ensures
            count == self.spec_length(),
    {
        self.length
    }

    /// The topmost node, for a look at the shape of the tree.
    pub fn root(&self) -> (root: Option<&Box<Node>>)
        ensures
            pointee(root) == self.spec_root(),
    {
        self.root.as_ref()
    }

    /// A store without records, for a tree of the given order.
    ///
    /// The order is at least 3: with less, a split would leave a node
    /// without a record. It is below the greatest `usize`, since a node holds
    /// one child more than the order allows right before it is split.
    pub fn new_empty(order: usize) -> (database: DeviceDatabase)
        requires
            3 <= order < usize::MAX,
        ensures
            database.well_formed(),
            database.levels_fit(),
            database.spec_root() is None,
            database.spec_order() == order,
            database.spec_length() == 0,
            database@ == Seq::<IoTDevice>::empty(),
            !database.is_valid(),
    {
        DeviceDatabase { root: None, length: 0, order }
    }

    /// Adds a record. A key that is there already is accepted and gets a
    /// second record.
    ///
    /// The store stays well formed and valid, and gains exactly this record.
    /// Where the records ascended by key, the record stands where its key
    /// belongs, behind a record of the same key: the keys do not descend
    /// then, and ascend still if the key is new. The root is put as `grew`
    /// says. The count must have room for one more.
    pub fn add(&mut self, device: IoTDevice)
        requires
            old(self).well_formed(),
            old(self).spec_length() < u64::MAX,
        ensures
            final(self).well_formed(),
            final(self).is_valid(),
            final(self).levels_fit(),
            final(self)@.len() == final(self).spec_length(),
            final(self).spec_order() == old(self).spec_order(),
            final(self).spec_length() == old(self).spec_length() + 1,
            final(self)@.to_multiset() == old(self)@.to_multiset().insert(device),
            ascending(old(self)@) ==> final(self)@ == with_record(old(self)@, device)
                && never_descends(final(self)@),
            ascending(old(self)@) && !has_key(old(self)@, device.numerical_id) ==> ascending(
                final(self)@,
            ),
            grew(old(self).spec_root(), final(self).spec_root(), device, old(self).spec_order()),
    {
        let node = if self.root.is_some() {
            self.root.take().unwrap()
        } else {
            Node::new_leaf()
        };
        proof {
            assert(node.records() =~= old(self)@);
        }
        let (root, _) = self.add_r(node, device, true);
        proof {
            if old(self).root is None {
                assert(node.devices@ =~= Seq::<Option<IoTDevice>>::empty());
                assert(node.children@ =~= Seq::<Option<Box<Node>>>::empty());
                assert(node.rank(device.numerical_id) == 0);
                let filled = choose|filled: Node| #[trigger]
                    filled_as(*node, filled, device, self.order) && settled_as(
                        filled,
                        (root, None),
                        self.order,
                        true,
                    );
                assert(root.devices@ =~= seq![Some(device)]);
                assert(root.children@ =~= seq![None::<Box<Node>>]);
            }
            assert(outcome_records((root, None)) =~= root.records());
            vstd::seq_lib::to_multiset_len(root.records());
            vstd::seq_lib::to_multiset_len(node.records());
            lemma_height_fits(*root, self.order, true);
            lemma_well_formed_is_valid(*root, self.order, true, 0);
            if ascending(old(self)@) {
                lemma_ascending_never_descends(old(self)@);
                lemma_with_record_never_descends(old(self)@, device);
                if !has_key(old(self)@, device.numerical_id) {
                    lemma_with_record_ascending(old(self)@, device);
                }
            }
        }
        self.root = Some(root);
    }

    /// Adds a record at or below `node`, and hands the node back.
    ///
    /// In a leaf the record gets a slot. In a regular node it goes down into
    /// the child that its key leads to; the child is taken out for that and
    /// put back as it returns, and what it promotes gets a slot of its own. A
    /// node that ends up with more children than the order allows is split:
    /// below the root the middle record is handed up with the new sibling, at
    /// the root both go under a new root.
    #[verifier::rlimit(50)]
    fn add_r(&mut self, node: Box<Node>, device: IoTDevice, is_root: bool) -> (outcome: (
        Box<Node>,
        Option<(Option<IoTDevice>, Option<Box<Node>>)>,
    ))
        requires
            3 <= old(self).order < usize::MAX,
            old(self).length < u64::MAX,
            node.well_formed(old(self).order, is_root),
        ensures
            final(self).order == old(self).order,
            final(self).root == old(self).root,
            final(self).length == old(self).length + 1,
            grown(*node, outcome, old(self).order, is_root),
            holds_one_more(node.records(), outcome_records(outcome), device),
            inserted_as(*node, outcome, device, old(self).order, is_root),
            handed_back(*node, outcome, device, old(self).order, is_root),
            outcome.1 is Some <==> !is_root && overflows(
                *node,
                device.numerical_id,
                old(self).order,
            ),
        decreases node,
    {
        let mut node = node;
        let id = device.numerical_id;
        let ghost before = *node;
        let ghost order = self.order;

        match node.node_type {
            NodeType::Leaf => {
                if node.add_key(id, (Some(device), None)) {
                    self.length += 1;
                }
                proof {
                    let at = before.rank(id);
                    assert forall|i: int| 0 <= i < node.children@.len() implies (
                    #[trigger] node.children@[i]) is None by {
                        if i < at {
                            assert(node.children@[i] == before.children@[i]);
                        } else if i > at {
                            assert(node.children@[i] == before.children@[i - 1]);
                        }
                    }
                    lemma_leaf_insert(before, *node, device);
                }
            },
            NodeType::Regular => {
                let ghost direction = node.closest(id);
                let (key, (dev, tree)) = node.remove_key(id).unwrap();
                proof {
                    lemma_count_at_most_parts(before.devices@, id);
                    assert(before.devices.len() == before.devices@.len());
                    match direction {
                        Direction::Left => {
                            assert(dev is None);
                        },
                        Direction::Right(index) => {
                            assert(before.rank(id) == index + 1);
                            assert(dev == before.devices@[index as int]);
                            assert(dev is Some);
                            assert(tree == before.children@[index as int]);
                        },
                    }
                    assert(leads_into(before, direction));
                    assert(tree == target(before, direction));
                    assert(tree is Some);
                }
                let ghost child_before = *tree.unwrap();
                let (grown_child, promoted) = self.add_r(tree.unwrap(), device, false);
                let ghost child_filled = choose|filled: Node| #[trigger]
                    filled_as(child_before, filled, device, order) && settled_as(
                        filled,
                        (grown_child, promoted),
                        order,
                        false,
                    );
                if dev.is_none() {
                    node.add_left_child(Some(grown_child));
                } else {
                    proof {
                        lemma_slot_returns(before.devices@, id);
                    }
                    node.add_key(key, (dev, Some(grown_child)));
                    proof {
                        assert(node.children@ =~= before.children@.update(
                            before.rank(id) - 1,
                            Some(grown_child),
                        ));
                    }
                }
                let ghost mended = *node;
                proof {
                    assert(retargeted(before, mended, direction, Some(grown_child)));
                    assert(mended.slots_ok());
                }
                if let Some(split_result) = promoted {
                    let new_id = split_result.0.as_ref().unwrap().numerical_id;
                    node.add_key(new_id, split_result);
                }
                proof {
                    lemma_regrown_shaped(before, mended, *node, grown_child, promoted, order, id);
                    lemma_regular_insert(before, mended, *node, grown_child, promoted, device);
                    lemma_filled_regular(
                        before,
                        mended,
                        *node,
                        grown_child,
                        promoted,
                        device,
                        order,
                        child_filled,
                    );
                }
            },
        }
        let ghost filled = *node;
        let outcome = self.settle(node, is_root);
        proof {
            lemma_handed_back(before, filled, outcome, device, order, is_root);
            assert(filled_as(before, filled, device, order) && settled_as(
                filled,
                outcome,
                order,
                is_root,
            ));
        }
        outcome
    }

    /// Splits a node that has more children than the order allows, and
    /// hands it back like `add_r`: below the root with the middle record and
    /// the new sibling to promote, at the root under a new root, one level
    /// higher. A node that is not too long comes back as it is.
    fn settle(&self, node: Box<Node>, is_root: bool) -> (outcome: (
        Box<Node>,
        Option<(Option<IoTDevice>, Option<Box<Node>>)>,
    ))
        requires
            3 <= self.order < usize::MAX,
            node.shaped(self.order),
            1 <= node.devices@.len() <= self.order,
            is_root || node.devices@.len() >= (self.order - 1) / 2,
        ensures
            settled_as(*node, outcome, self.order, is_root),
            grown(*node, outcome, self.order, is_root),
            outcome_records(outcome) == node.records(),
    {
        let mut node = node;
        let ghost order = self.order;
        if node.len() > self.order {
            let ghost full = *node;
            let (new_parent, sibling) = node.split();
            proof {
                lemma_split_well_formed(full, *node, *sibling, order);
            }

            if is_root {
                // the tree grows by a level: a new root above the two halves
                let mut parent = Node::new_regular();
                parent.add_left_child(Some(node));
                parent.add_key(new_parent.numerical_id, (Some(new_parent), Some(sibling)));
                proof {
                    assert(parent.devices@.len() == 1);
                    assert(parent.children@[0] == Some(sibling));
                    lemma_new_root_records(*parent, *node, Some(new_parent), Some(sibling));
                    assert(outcome_records((parent, None)) =~= full.records());
                    assert(parent.devices@ =~= seq![full.devices@[full.middle()]]);
                    assert(parent.children@.len() == 1);
                    assert(is_upper_half(full, *sibling));
                    assert(is_lower_half(full, *node));
                    assert(settled_as(full, (parent, None), order, is_root));
                }
                (parent, None)
            } else {
                proof {
                    assert(outcome_records((node, Some((Some(new_parent), Some(sibling)))))
                        =~= full.records());
                    assert(is_upper_half(full, *sibling));
                    assert(is_lower_half(full, *node));
                }
                (node, Some((Some(new_parent), Some(sibling))))
            }
        } else {
            proof {
                assert(outcome_records((node, None)) =~= node.records());
            }
            (node, None)
        }
    }

    /// Decides whether the tree is a valid B-tree: it has a root, every node
    /// has no more children than the order allows and no fewer than its place
    /// asks for, and all leaves stand on one level.
    ///
    /// It may be asked of any store whose levels can be counted, well formed
    /// or not. A well-formed store is valid as soon as it holds a record.
    pub fn is_a_valid_btree(&self) -> (valid: bool)
        requires
            self.levels_fit(),
        ensures
            valid == self.is_valid(),
            self.well_formed() ==> valid == (self.spec_length() > 0),
    {
        proof {
            if self.well_formed() {
                self.lemma_well_formed();
            }
        }
        if let Some(tree) = self.root.as_ref() {
            let total = self.validate(tree, 0);
            total.0 && total.1 == total.2
        } else {
            false
        }
    }

    /// Reads the tree below `node`, which stands at `level`: whether it keeps
    /// the fill rules, and the levels of its shallowest and its deepest leaf.
    pub fn validate(&self, node: &Box<Node>, level: usize) -> (stats: (bool, usize, usize))
        requires
            node.deepest_leaf(level as int) <= usize::MAX,
        ensures
            stats.0 == node.rules_hold(self.spec_order(), level as int),
            stats.1 == node.shallowest_leaf(level as int),
            stats.2 == node.deepest_leaf(level as int),
        decreases node,
    {
        match node.node_type {
            NodeType::Leaf => (node.children.len() < self.order, level, level),
            NodeType::Regular => {
                // two children are enough for the root, half the order for all others
                let min_children = if level > 0 {
                    self.order / 2usize
                } else {
                    2
                };
                let slots = node.children.len();
                let key_rules = slots < self.order && (min_children == 0 || slots >= min_children
                    - 1);

                let mut total = (key_rules, usize::MAX, level);
                let mut i: usize = 0;
                while i < slots
                    invariant
                        i <= slots,
                        slots == node.children@.len(),
                        node.node_type == NodeType::Regular,
                        node.deepest_leaf(level as int) <= usize::MAX,
                        total.0 == (key_rules && forall|j: int|
                            0 <= j < i ==> child_rules(
                                #[trigger] node.children@[j],
                                self.order,
                                level + 1,
                            )),
                        total.1 == shallowest_among(node.children@.subrange(0, i as int), level + 1),
                        total.2 == vstd::math::max(
                            level as int,
                            deepest_among(node.children@.subrange(0, i as int), level + 1),
                        ),
                    decreases slots - i,
                {
                    proof {
                        let longer = node.children@.subrange(0, i + 1);
                        assert(longer.drop_last() =~= node.children@.subrange(0, i as int));
                        assert(longer.last() == node.children@[i as int]);
                        lemma_deepest_among_bounds(node.children@, level + 1, i as int);
                        assert(shallowest_among(longer, level + 1) == vstd::math::min(
                            child_shallowest(node.children@[i as int], level + 1),
                            shallowest_among(node.children@.subrange(0, i as int), level + 1),
                        ));
                        assert(deepest_among(longer, level + 1) == vstd::math::max(
                            child_deepest(node.children@[i as int], level + 1),
                            deepest_among(node.children@.subrange(0, i as int), level + 1),
                        ));
                        if node.children@[i as int] is Some {
                            lemma_deepest_at_least(*node.children@[i as int].unwrap(), level + 1);
                        }
                    }
                    if let Some(tree) = &node.children[i] {
                        let stats = self.validate(tree, level + 1);
                        total = (
                            total.0 && stats.0,
                            if stats.1 < total.1 {
                                stats.1
                            } else {
                                total.1
                            },
                            if stats.2 > total.2 {
                                stats.2
                            } else {
                                total.2
                            },
                        );
                    }
                    i += 1;
                }
                proof {
                    assert(node.children@.subrange(0, slots as int) =~= node.children@);
                    if node.left_child is Some {
                        lemma_deepest_at_least(*node.left_child.unwrap(), level + 1);
                    }
                }
                if let Some(tree) = &node.left_child {
                    let stats = self.validate(tree, level + 1);
                    total = (
                        total.0 && stats.0,
                        if stats.1 < total.1 {
                            stats.1
                        } else {
                            total.1
                        },
                        if stats.2 > total.2 {
                            stats.2
                        } else {
                            total.2
                        },
                    );
                }
                total
            },
        }
    }

    /// Looks a key up. What is found is a record of the store with this key;
    /// where the keys of the records never descend, nothing is found only if
    /// no record has the key.
    pub fn find(&self, id: u64) -> (found: Option<IoTDevice>)
        requires
            self.well_formed(),
        ensures
            match found {
                Some(device) => device.numerical_id == id && self@.contains(device),
                None => never_descends(self@) ==> !has_key(self@, id),
            },
    {
        match self.root.as_ref() {
            Some(tree) => self.find_r(tree, id),
            _ => None,
        }
    }

    /// Looks a key up at and below `node`: among its slots first, then in the
    /// child that the key leads to.
    fn find_r(&self, node: &Box<Node>, id: u64) -> (found: Option<IoTDevice>)
        requires
            node.shaped(self.order),
        ensures
            match found {
                Some(device) => device.numerical_id == id && node.records().contains(device),
                None => never_descends(node.records()) ==> !has_key(node.records(), id),
            },
        decreases node,
    {
        match node.get_device(id) {
            Some(device) => {
                proof {
                    let i = choose|i: int|
                        node.first_match(id, i) && node.devices@[i] == Some(*device);
                    lemma_slot_among_records(**node, i);
                }
                Some(device.clone())
            },
            None => {
                if node.node_type != NodeType::Leaf {
                    let ghost direction = node.closest(id);
                    proof {
                        lemma_count_at_most_parts(node.devices@, id);
                        assert(node.devices.len() == node.devices@.len());
                        assert(leads_into(**node, direction));
                    }
                    if let Some(tree) = node.get_child(id) {
                        let found = self.find_r(tree, id);
                        proof {
                            if found is Some {
                                lemma_found_below(**node, direction, found.unwrap());
                            } else if never_descends(node.records()) {
                                crate::btree::walk::lemma_descent_sorted(**node, id);
                                lemma_absent_below(**node, id);
                            }
                        }
                        found
                    } else {
                        None
                    }
                } else {
                    proof {
                        lemma_absent_in_leaf(**node, id);
                    }
                    None
                }
            },
        }
    }

    /// Walks the tree in key order and hands back every record it meets: the
    /// left child of a node first, then each slot's record and child in turn.
    pub fn walk(&self) -> (records: Vec<IoTDevice>)
        requires
            self.well_formed(),
        ensures
            records@ == self@,
    {
        let mut records: Vec<IoTDevice> = Vec::new();
        if let Some(root) = &self.root {
            self.walk_in_order(root, &mut records);
        }
        proof {
            assert(records@ =~= self@);
        }
        records
    }

    /// Appends the records at and below `node`, in the order of a walk.
    fn walk_in_order(&self, node: &Box<Node>, records: &mut Vec<IoTDevice>)
        requires
            node.shaped(self.order),
        ensures
            final(records)@ == old(records)@ + node.records(),
        decreases node,
    {
        if let Some(left) = &node.left_child {
            self.walk_in_order(left, records);
        }
        let ghost start = records@;
        assert(start =~= old(records)@ + child_records(node.left_child));

        let slots = node.devices.len();
        let mut i: usize = 0;
        while i < slots
            invariant
                i <= slots,
                slots == node.devices@.len(),
                node.shaped(self.order),
                records@ == start + crate::btree::node::slots_records(
                    node.devices@.subrange(0, i as int),
                    node.children@.subrange(0, i as int),
                ),
            decreases slots - i,
        {
            let ghost so_far = records@;
            proof {
                let longer_devices = node.devices@.subrange(0, i + 1);
                let longer_children = node.children@.subrange(0, i + 1);
                assert(longer_devices.drop_last() =~= node.devices@.subrange(0, i as int));
                assert(longer_children.drop_last() =~= node.children@.subrange(0, i as int));
                assert(longer_devices.last() == node.devices@[i as int]);
                assert(longer_children.last() == node.children@[i as int]);
            }
            if let Some(k) = &node.devices[i] {
                records.push(k.clone());
            }
            assert(records@ =~= so_far + crate::btree::node::slot_record(node.devices@[i as int]));
            if let Some(c) = &node.children[i] {
                self.walk_in_order(c, records);
            }
            assert(records@ =~= so_far + crate::btree::node::slot_record(node.devices@[i as int])
                + child_records(node.children@[i as int]));
            i += 1;
        }
        proof {
            assert(node.devices@.subrange(0, slots as int) =~= node.devices@);
            assert(node.children@.subrange(0, slots as int) =~= node.children@);
            assert(records@ =~= old(records)@ + node.records());
        }
    }
}

} // verus!
