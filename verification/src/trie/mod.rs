//! A registry of devices by their path, on a trie: one node for every
//! character of a path, shared by all paths that begin alike.
use vstd::prelude::*;
use std::collections::HashMap;
use vstd::std_specs::iter::IteratorSpec;
use crate::device::IoTDevice;
pub use crate::trie::node::Node;

pub mod node;

verus! {

/// The number by which a character is looked up.
pub open spec fn code(c: char) -> u32 {
    c as u32
}

/// What is at the end of a path that starts among `next`: nothing where the
/// path leaves the trie or is empty, else the value of the node it ends at.
pub open spec fn slot_at(next: Map<u32, Box<Node>>, path: Seq<char>) -> Option<Option<IoTDevice>>
    decreases path.len(),
{
    if path.len() == 0 {
        None
    } else if !next.contains_key(code(path[0])) {
        None
    } else if path.len() == 1 {
        Some(next[code(path[0])].value)
    } else {
        slot_at(next[code(path[0])].next@, path.drop_first())
    }
}

/// Two characters with one code are one character.
pub proof fn lemma_code_tells(a: char, b: char)
    requires
        code(a) == code(b),
    ensures
        a == b,
{
}

/// The number is the code of a character.
pub open spec fn is_code(k: u32) -> bool {
    exists|c: char| #[trigger] code(c) == k
}

/// Below the node, at every level, all children are kept by the code of a
/// character.
pub open spec fn node_keyed_by_codes(node: Node) -> bool
    decreases node,
{
    forall|k: u32| #[trigger]
        node.next@.contains_key(k) ==> {
            proof {
                broadcast use vstd::std_specs::hash::group_hash_axioms;
                broadcast use vstd::map::axiom_map_index_decreases_finite;

            }
            is_code(k) && node_keyed_by_codes(*node.next@[k])
        }
}

/// All children, at every level, are kept by the code of a character.
pub open spec fn keyed_by_codes(next: Map<u32, Box<Node>>) -> bool {
    forall|k: u32| #[trigger] next.contains_key(k) ==> is_code(k) && node_keyed_by_codes(*next[k])
}

/// The device is stored at the end of some path that starts among `next`.
pub open spec fn holds(next: Map<u32, Box<Node>>, device: IoTDevice) -> bool {
    exists|path: Seq<char>| #[trigger] slot_at(next, path) == Some(Some(device))
}

/// The device is stored at the node or somewhere below it.
pub open spec fn node_holds(node: Node, device: IoTDevice) -> bool {
    node.value == Some(device) || holds(node.next@, device)
}

/// What a child holds, its parent's children hold.
pub proof fn lemma_holds_through(next: Map<u32, Box<Node>>, k: u32, device: IoTDevice)
    requires
        next.contains_key(k),
        is_code(k),
        node_holds(*next[k], device),
    ensures
        holds(next, device),
{
    let c = choose|c: char| #[trigger] code(c) == k;
    if next[k].value == Some(device) {
        let path = seq![c];
        assert(path[0] == c);
        assert(slot_at(next, path) == Some(Some(device)));
    } else {
        let tail = choose|path: Seq<char>| #[trigger]
            slot_at(next[k].next@, path) == Some(Some(device));
        let path = seq![c] + tail;
        assert(path[0] == c);
        assert(path.drop_first() =~= tail);
        assert(tail.len() > 0);
        assert(slot_at(next, path) == Some(Some(device)));
    }
}

/// What the children hold, one of them holds.
pub proof fn lemma_holds_below(next: Map<u32, Box<Node>>, device: IoTDevice) -> (k: u32)
    requires
        holds(next, device),
    ensures
        next.contains_key(k),
        node_holds(*next[k], device),
{
    let path = choose|path: Seq<char>| #[trigger] slot_at(next, path) == Some(Some(device));
    let k = code(path[0]);
    if path.len() > 1 {
        assert(slot_at(next[k].next@, path.drop_first()) == Some(Some(device)));
    }
    k
}

/// `prefix` is what `path` begins with.
pub open spec fn begins(path: Seq<char>, prefix: Seq<char>) -> bool {
    prefix.len() <= path.len() && path.subrange(0, prefix.len() as int) == prefix
}

/// What is at the end of `at` once `device` went in at `path`: the device at
/// the path itself, an empty node at every beginning of the path that had
/// none, and what was there everywhere else.
pub open spec fn slot_after(
    before: Option<Option<IoTDevice>>,
    at: Seq<char>,
    path: Seq<char>,
    device: IoTDevice,
) -> Option<Option<IoTDevice>> {
    if at == path {
        Some(Some(device))
    } else if at.len() > 0 && begins(path, at) && before is None {
        Some(None)
    } else {
        before
    }
}

/// The characters of a string, one by one.
fn chars_of(text: &str) -> (chars: Vec<char>)
    ensures
        chars@ == text@,
{
    let mut chars: Vec<char> = Vec::new();
    for c in iter: text.chars()
        invariant
            chars@.len() == iter.index(),
            forall|i: int| 0 <= i < chars@.len() ==> chars@[i] == iter.seq()[i],
            iter.seq() == text@,
    {
        chars.push(c);
    }
    assert(chars@ =~= text@);
    chars
}

/// Puts `device` at the end of the path that starts at index `from`, below
/// the children `next`, and makes every node on the way that is missing.
fn insert_at(
    next: &mut HashMap<u32, Box<Node>>,
    path: &Vec<char>,
    from: usize,
    device: IoTDevice,
)
    requires
        from < path@.len(),
        keyed_by_codes(old(next)@),
    ensures
        keyed_by_codes(final(next)@),
        forall|at: Seq<char>|
            #[trigger] slot_at(final(next)@, at) == slot_after(
                slot_at(old(next)@, at),
                at,
                path@.subrange(from as int, path@.len() as int),
                device,
            ),
    decreases path@.len() - from,
{
    broadcast use vstd::std_specs::hash::group_hash_axioms;

    let length = path.len();
    let c = path[from];
    let k = c as u32;
    let ghost rest = path@.subrange(from as int, path@.len() as int);
    let ghost before = next@;
    let mut node = match next.remove(&k) {
        Some(n) => n,
        None => Node::new(c, None),
    };
    let ghost found = *node;
    proof {
        if !before.contains_key(k) {
            assert(found.next@ =~= Map::<u32, Box<Node>>::empty());
        }
        assert(keyed_by_codes(found.next@));
    }
    if from + 1 == length {
        node.value = Some(device);
    } else {
        insert_at(&mut node.next, path, from + 1, device);
    }
    let ghost grown = *node;
    next.insert(k, node);
    proof {
        assert(is_code(k)) by {
            assert(code(c) == k);
        }
        assert forall|j: u32| #[trigger] next@.contains_key(j) implies is_code(j)
            && node_keyed_by_codes(*next@[j]) by {
            if j != k {
                assert(before.contains_key(j));
            }
        }
        let shorter = path@.subrange(from + 1, path@.len() as int);
        assert(rest.drop_first() =~= shorter);
        assert(rest[0] == c);
        assert forall|at: Seq<char>| #[trigger] slot_at(next@, at) == slot_after(
            slot_at(before, at),
            at,
            rest,
            device,
        ) by {
            if at.len() == 0 {
            } else if code(at[0]) != k {
                assert(at[0] != rest[0]);
                if begins(rest, at) {
                    assert(rest.subrange(0, at.len() as int)[0] == at[0]);
                }
            } else {
                lemma_code_tells(at[0], c);
                let tail = at.drop_first();
                assert(at =~= seq![c] + tail);
                assert(rest =~= seq![c] + shorter);
                if !before.contains_key(k) {
                    assert(slot_at(before, at) is None);
                    assert(found.next@ =~= Map::<u32, Box<Node>>::empty());
                    assert(slot_at(found.next@, tail) is None);
                }
                if at.len() == 1 {
                    assert(begins(rest, at)) by {
                        assert(rest.subrange(0, 1) =~= at);
                    }
                    if from + 1 == path@.len() {
                        assert(rest =~= at);
                    } else {
                        assert(rest.len() > 1);
                        assert(slot_at(grown.next@, Seq::<char>::empty()) is None);
                    }
                } else {
                    assert(begins(rest, at) <==> begins(shorter, tail)) by {
                        if begins(rest, at) {
                            assert(shorter.subrange(0, tail.len() as int) =~= tail);
                        }
                        if begins(shorter, tail) {
                            assert(rest.subrange(0, at.len() as int) =~= at);
                        }
                    }
                    assert(at == rest <==> tail == shorter) by {
                        if tail == shorter {
                            assert(at =~= rest);
                        }
                    }
                    if from + 1 == path@.len() {
                        assert(shorter.len() == 0);
                        assert(grown.next@ == found.next@);
                    } else {
                        assert(slot_at(grown.next@, tail) == slot_after(
                            slot_at(found.next@, tail),
                            tail,
                            shorter,
                            device,
                        ));
                    }
                }
            }
        }
    }
}

/// The registry: it owns the first level of the trie and counts what was
/// added.
pub struct BestDeviceRegistry {
    pub length: u64,
    root: HashMap<u32, Box<Node>>,
}

impl BestDeviceRegistry {
    /// The running count of additions, as the field `length` holds it.
    pub closed spec fn spec_length(self) -> u64 {
        self.length
    }

    /// The invariant of the registry: every node is kept by the code of its
    /// character.
    pub closed spec fn well_formed(self) -> bool {
        keyed_by_codes(self.root@)
    }

    /// What is at the end of a path: nothing where the trie has no node
    /// there, else what that node holds, a device or none.
    pub closed spec fn slot(self, path: Seq<char>) -> Option<Option<IoTDevice>> {
        slot_at(self.root@, path)
    }

    /// The trie has a node at the end of this path.
    pub open spec fn has_node(self, path: Seq<char>) -> bool {
        self.slot(path) is Some
    }

    /// The device that is stored at exactly this path.
    pub open spec fn stored(self, path: Seq<char>) -> Option<IoTDevice> {
        match self.slot(path) {
            Some(value) => value,
            None => None,
        }
    }

    /// The number of devices added, as the field `length` holds it.
    pub fn len(&self) -> (count: u64)
        ensures
            count == self.spec_length(),
    {
        self.length
    }

    /// A registry without devices.
    pub fn new_empty() -> (registry: BestDeviceRegistry)
        ensures
            registry.well_formed(),
            registry.spec_length() == 0,
            forall|path: Seq<char>| !registry.has_node(path),
    {
        let registry = BestDeviceRegistry { length: 0, root: HashMap::new() };
        proof {
            assert forall|path: Seq<char>| !registry.has_node(path) by {
                assert(registry.root@ =~= Map::<u32, Box<Node>>::empty());
            }
        }
        registry
    }

    /// Adds a device at its path, and counts it. A device that was stored at
    /// the same path gives way. A device without a path is not added.
    pub fn add(&mut self, device: IoTDevice)
        requires
            old(self).well_formed(),
            old(self).spec_length() < u64::MAX,
        ensures
            final(self).well_formed(),
            device.path@.len() == 0 ==> *final(self) == *old(self),
            device.path@.len() > 0 ==> final(self).spec_length() == old(self).spec_length() + 1,
            device.path@.len() > 0 ==> forall|at: Seq<char>|
                #[trigger] final(self).slot(at) == slot_after(
                    old(self).slot(at),
                    at,
                    device.path@,
                    device,
                ),
    {
        let p = device.path.clone();
        let path = chars_of(p.as_str());
        if path.len() > 0 {
            self.length += 1;
            assert(path@.subrange(0, path@.len() as int) =~= path@);
            insert_at(&mut self.root, &path, 0, device);
        }
    }

    /// Looks a path up, character by character: what is stored at exactly
    /// this path. A path that leaves the trie, or ends at a node without a
    /// device, finds nothing.
    pub fn find(&self, path: &str) -> (found: Option<IoTDevice>)
        ensures
            found == self.stored(path@),
    {
        broadcast use vstd::std_specs::hash::group_hash_axioms;

        let chars = chars_of(path);
        if chars.len() == 0 {
            return None;
        }
        let start = chars[0] as u32;
        match self.root.get(&start) {
            None => {
                proof {
                    lemma_slot_is_node_value(self.root@, chars@);
                    lemma_node_missing(self.root@, chars@, 1);
                    assert(chars@.subrange(0, 1)[0] == chars@[0]);
                }
                None
            },
            Some(first) => {
                let mut n: &Box<Node> = first;
                let mut i: usize = 1;
                proof {
                    assert(chars@.subrange(0, 1)[0] == chars@[0]);
                    assert(chars@.subrange(0, 1).len() == 1);
                    lemma_slot_of_node(self.root@, chars@.subrange(0, 1), **n);
                }
                while i < chars.len()
                    invariant
                        1 <= i <= chars@.len(),
                        chars@ == path@,
                        node_at(self.root@, chars@.subrange(0, i as int)) == Some(**n),
                    decreases chars@.len() - i,
                {
                    let c = chars[i] as u32;
                    proof {
                        lemma_node_step(self.root@, chars@.subrange(0, i + 1));
                        assert(chars@.subrange(0, i + 1).drop_last() =~= chars@.subrange(0, i as int));
                    }
                    match n.next.get(&c) {
                        Some(tmp) => {
                            n = tmp;
                        },
                        None => {
                            proof {
                                let longer = chars@.subrange(0, i + 1);
                                assert(longer.last() == chars@[i as int]);
                                assert(node_at(self.root@, longer) is None);
                                lemma_node_missing(self.root@, chars@, i + 1);
                                lemma_slot_is_node_value(self.root@, chars@);
                            }
                            return None;
                        },
                    }
                    i += 1;
                }
                proof {
                    assert(chars@.subrange(0, i as int) =~= chars@);
                    lemma_slot_is_node_value(self.root@, chars@);
                }
                n.value.clone()
            },
        }
    }
}

impl BestDeviceRegistry {
    /// Walks the whole trie and hands back every device that is stored in
    /// it: below a node first what its children hold, in no set order, then
    /// what the node holds itself.
    pub fn walk(&self) -> (records: Vec<IoTDevice>)
        requires
            self.well_formed(),
        ensures
            forall|device: IoTDevice|
                #![trigger records@.contains(device)]
                records@.contains(device) <==> exists|path: Seq<char>| #[trigger]
                    self.stored(path) == Some(device),
    {
        broadcast use vstd::std_specs::hash::group_hash_axioms;

        let mut records: Vec<IoTDevice> = Vec::new();
        let ghost all = vstd::std_specs::hash::spec_values_iter(&self.root).remaining().unref();
        for r in iter: self.root.values()
            invariant
                iter.seq().unref() == all,
                all.to_set() == self.root@.values(),
                keyed_by_codes(self.root@),
                forall|device: IoTDevice|
                    records@.contains(device) <==> exists|j: int|
                        0 <= j < iter.index() && #[trigger] node_holds(*all[j], device),
        {
            let ghost before = records@;
            let ghost at = iter.index();
            proof {
                assert(*iter.seq()[at] == all[at]);
                lemma_value_has_key(self.root@, all, at);
            }
            self.walk_r(r, &mut records);
            proof {
                assert forall|device: IoTDevice|
                    records@.contains(device) <==> exists|j: int|
                        0 <= j < at + 1 && #[trigger] node_holds(*all[j], device) by {
                    if before.contains(device) {
                        let j = choose|j: int| 0 <= j < at && #[trigger] node_holds(*all[j], device);
                        assert(node_holds(*all[j], device));
                    }
                    if node_holds(*all[at], device) {
                    }
                    if exists|j: int| 0 <= j < at + 1 && #[trigger] node_holds(*all[j], device) {
                        let j = choose|j: int|
                            0 <= j < at + 1 && #[trigger] node_holds(*all[j], device);
                        if j < at {
                            assert(before.contains(device));
                        }
                    }
                }
            }
        }
        proof {
            assert forall|device: IoTDevice|
                records@.contains(device) <==> exists|path: Seq<char>| #[trigger]
                    self.stored(path) == Some(device) by {
                lemma_all_hold(self.root@, all, device);
                if exists|path: Seq<char>| #[trigger] self.stored(path) == Some(device) {
                    let path = choose|path: Seq<char>| #[trigger]
                        self.stored(path) == Some(device);
                    assert(slot_at(self.root@, path) == Some(Some(device)));
                }
                if holds(self.root@, device) {
                    let path = choose|path: Seq<char>| #[trigger]
                        slot_at(self.root@, path) == Some(Some(device));
                    assert(self.stored(path) == Some(device));
                }
            }
        }
        records
    }

    /// Appends every device that is stored at or below `node`: what its
    /// children hold first, then what it holds itself.
    fn walk_r(&self, node: &Box<Node>, records: &mut Vec<IoTDevice>)
        requires
            keyed_by_codes(node.next@),
        ensures
            forall|device: IoTDevice|
                #![trigger final(records)@.contains(device)]
                #![trigger old(records)@.contains(device)]
                #![trigger node_holds(**node, device)]
                final(records)@.contains(device) <==> old(records)@.contains(device)
                    || node_holds(**node, device),
        decreases node,
    {
        broadcast use vstd::std_specs::hash::group_hash_axioms;

        let ghost all = vstd::std_specs::hash::spec_values_iter(&node.next).remaining().unref();
        for n in iter: node.next.values()
            invariant
                iter.seq().unref() == all,
                all.to_set() == node.next@.values(),
                keyed_by_codes(node.next@),
                forall|device: IoTDevice|
                    records@.contains(device) <==> old(records)@.contains(device) || exists|j: int|
                        0 <= j < iter.index() && #[trigger] node_holds(*all[j], device),
        {
            let ghost before = records@;
            let ghost at = iter.index();
            proof {
                assert(*iter.seq()[at] == all[at]);
                lemma_value_has_key(node.next@, all, at);
            }
            let ghost child = **n;
            assert(child == *all[at]);
            self.walk_r(n, records);
            proof {
                assert forall|device: IoTDevice|
                    records@.contains(device) <==> old(records)@.contains(device) || exists|j: int|
                        0 <= j < at + 1 && #[trigger] node_holds(*all[j], device) by {
                    let met = exists|j: int|
                        0 <= j < at + 1 && #[trigger] node_holds(*all[j], device);
                    assert(records@.contains(device) <==> before.contains(device) || node_holds(
                        child,
                        device,
                    ));
                    if before.contains(device) && !old(records)@.contains(device) {
                        let j = choose|j: int| 0 <= j < at && #[trigger] node_holds(*all[j], device);
                        assert(0 <= j < at + 1 && node_holds(*all[j], device));
                        assert(met);
                    }
                    if node_holds(*all[at], device) {
                        assert(0 <= at < at + 1 && node_holds(*all[at], device));
                        assert(met);
                    }
                    if met {
                        let j = choose|j: int|
                            0 <= j < at + 1 && #[trigger] node_holds(*all[j], device);
                        if j < at {
                            assert(before.contains(device));
                        }
                    }
                }
            }
        }
        let ghost below = records@;
        proof {
            assert forall|device: IoTDevice|
                below.contains(device) <==> old(records)@.contains(device) || holds(
                    node.next@,
                    device,
                ) by {
                lemma_all_hold(node.next@, all, device);
            }
        }
        if let Some(dev) = &node.value {
            records.push(dev.clone());
            proof {
                assert(records@ == below.push(*dev));
                assert forall|device: IoTDevice|
                    records@.contains(device) <==> below.contains(device) || device == *dev by {
                    if below.contains(device) {
                        let j = choose|j: int| 0 <= j < below.len() && below[j] == device;
                        assert(records@[j] == device);
                    }
                    if device == *dev {
                        assert(records@[below.len() as int] == device);
                    }
                }
            }
        }
    }
}

/// Every value that a walk of the children meets is the child for some key.
pub proof fn lemma_value_has_key(next: Map<u32, Box<Node>>, all: Seq<Box<Node>>, at: int)
    requires
        all.to_set() == next.values(),
        keyed_by_codes(next),
        0 <= at < all.len(),
    ensures
        keyed_by_codes(all[at].next@),
        exists|k: u32| next.contains_key(k) && next[k] == all[at],
{
    assert(all.to_set().contains(all[at])) by {
        assert(all.contains(all[at]));
    }
    assert(next.values().contains(all[at]));
    assert(next.contains_value(all[at]));
    let k = choose|k: u32| next.contains_key(k) && next[k] == all[at];
    assert(next.contains_key(k));
}

/// What the children hold is what the values that a walk of them meets
/// hold.
pub proof fn lemma_all_hold(next: Map<u32, Box<Node>>, all: Seq<Box<Node>>, device: IoTDevice)
    requires
        all.to_set() == next.values(),
        keyed_by_codes(next),
    ensures
        holds(next, device) <==> exists|j: int|
            0 <= j < all.len() && #[trigger] node_holds(*all[j], device),
{
    if holds(next, device) {
        let k = lemma_holds_below(next, device);
        assert(next.contains_value(next[k]));
        assert(next.values().contains(next[k]));
        assert(all.to_set().contains(next[k]));
        assert(all.contains(next[k]));
        let j = choose|j: int| 0 <= j < all.len() && all[j] == next[k];
        assert(node_holds(*all[j], device));
    }
    if exists|j: int| 0 <= j < all.len() && #[trigger] node_holds(*all[j], device) {
        let j = choose|j: int| 0 <= j < all.len() && #[trigger] node_holds(*all[j], device);
        lemma_value_has_key(next, all, j);
        let k = choose|k: u32| next.contains_key(k) && next[k] == all[j];
        lemma_holds_through(next, k, device);
    }
}

/// The node at the end of a path that starts among `next`, if the trie has
/// one there.
pub open spec fn node_at(next: Map<u32, Box<Node>>, path: Seq<char>) -> Option<Node>
    decreases path.len(),
{
    if path.len() == 0 {
        None
    } else if !next.contains_key(code(path[0])) {
        None
    } else if path.len() == 1 {
        Some(*next[code(path[0])])
    } else {
        node_at(next[code(path[0])].next@, path.drop_first())
    }
}

/// What is at the end of a path is the value of the node there.
pub proof fn lemma_slot_is_node_value(next: Map<u32, Box<Node>>, path: Seq<char>)
    ensures
        slot_at(next, path) == match node_at(next, path) {
            Some(node) => Some(node.value),
            None => None,
        },
    decreases path.len(),
{
    if path.len() > 1 && next.contains_key(code(path[0])) {
        lemma_slot_is_node_value(next[code(path[0])].next@, path.drop_first());
    }
}

/// The node at the end of a path of two characters or more is the child, by
/// the last character, of the node at the end of the path without it.
pub proof fn lemma_node_step(next: Map<u32, Box<Node>>, path: Seq<char>)
    requires
        path.len() >= 2,
    ensures
        node_at(next, path) == match node_at(next, path.drop_last()) {
            None => None,
            Some(above) => if above.next@.contains_key(code(path.last())) {
                Some(*above.next@[code(path.last())])
            } else {
                None
            },
        },
    decreases path.len(),
{
    let front = path.drop_last();
    if next.contains_key(code(path[0])) {
        let below = next[code(path[0])].next@;
        assert(front[0] == path[0]);
        if path.len() == 2 {
            assert(front.len() == 1);
            assert(path.drop_first().len() == 1);
            assert(path.drop_first()[0] == path.last());
        } else {
            lemma_node_step(below, path.drop_first());
            assert(path.drop_first().drop_last() =~= front.drop_first());
            assert(path.drop_first().last() == path.last());
        }
    } else {
        assert(front[0] == path[0]);
    }
}

/// Where the trie has no node at the end of a beginning of a path, it has
/// none at the end of the path.
pub proof fn lemma_node_missing(next: Map<u32, Box<Node>>, path: Seq<char>, upto: int)
    requires
        1 <= upto <= path.len(),
        node_at(next, path.subrange(0, upto)) is None,
    ensures
        node_at(next, path) is None,
    decreases path.len() - upto,
{
    if upto < path.len() {
        let longer = path.subrange(0, upto + 1);
        lemma_node_step(next, longer);
        assert(longer.drop_last() =~= path.subrange(0, upto));
        lemma_node_missing(next, path, upto + 1);
    } else {
        assert(path.subrange(0, upto) =~= path);
    }
}

/// The first character of a path leads to a child of the first level.
pub proof fn lemma_slot_of_node(next: Map<u32, Box<Node>>, path: Seq<char>, node: Node)
    requires
        path.len() == 1,
        next.contains_key(code(path[0])),
        *next[code(path[0])] == node,
    ensures
        node_at(next, path) == Some(node),
{
}

} // verus!
