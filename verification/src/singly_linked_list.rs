//! A log of transactions: a singly linked list that is appended to at its
//! tail and read from its head.
use vstd::prelude::*;

verus! {

/// A link of the list: one entry and the rest of the log.
pub struct Node {
    pub value: String,
    pub next: Option<Box<Node>>,
}

/// The entries from a link on, oldest first.
pub open spec fn entries(link: Option<Box<Node>>) -> Seq<String>
    decreases link,
{
    match link {
        None => Seq::empty(),
        Some(node) => seq![node.value] + entries(node.next),
    }
}

impl Node {
    /// A link that holds `value` and has nothing behind it.
    pub fn new(value: String) -> (node: Box<Node>)
        ensures
            node.value == value,
            node.next is None,
            entries(Some(node)) == seq![value],
    {
        let node = Box::new(Node { value, next: None });
        proof {
            assert(entries(node.next) =~= Seq::<String>::empty());
            assert(entries(Some(node)) =~= seq![node.value]);
        }
        node
    }

    /// Hangs `new` behind the last link that follows `link`.
    fn append_behind(link: &mut Option<Box<Node>>, new: Box<Node>)
        ensures
            entries(*final(link)) == entries(*old(link)) + entries(Some(new)),
        decreases *old(link),
    {
        match link.take() {
            None => {
                *link = Some(new);
                assert(entries(*old(link)) + entries(Some(new)) =~= entries(Some(new)));
            },
            Some(mut first) => {
                let ghost rest = entries(first.next);
                Node::append_behind(&mut first.next, new);
                *link = Some(first);
                assert(entries(*link) =~= seq![first.value] + (rest + entries(Some(new))));
                assert(entries(*old(link)) =~= seq![first.value] + rest);
                assert(entries(*link) =~= entries(*old(link)) + entries(Some(new)));
            },
        }
    }
}

/// The log: entries leave in the order in which they came.
pub struct TransactionLog {
    head: Option<Box<Node>>,
    pub length: u64,
}

impl View for TransactionLog {
    type V = Seq<String>;

    /// The entries of the log, oldest first.
    closed spec fn view(&self) -> Seq<String> {
        entries(self.head)
    }
}

impl TransactionLog {
    /// The running count of entries, as the field `length` holds it.
    pub closed spec fn spec_length(self) -> u64 {
        self.length
    }

    /// The invariant of the log: `length` counts its entries.
    pub closed spec fn well_formed(self) -> bool {
        self.length == self@.len()
    }

    /// The number of entries, as the field `length` holds it.
    pub fn len(&self) -> (count: u64)
        ensures
            count == self.spec_length(),
    {
        self.length
    }

    /// A log without entries.
    pub fn new_empty() -> (log: TransactionLog)
        ensures
            log.well_formed(),
            log@ == Seq::<String>::empty(),
            log.spec_length() == 0,
    {
        TransactionLog { head: None, length: 0 }
    }

    /// Appends an entry at the tail.
    pub fn append(&mut self, value: String)
        requires
            old(self).well_formed(),
            old(self).spec_length() < u64::MAX,
        ensures
            final(self).well_formed(),
            final(self)@.len() == final(self).spec_length(),
            final(self)@ == old(self)@.push(value),
            final(self).spec_length() == old(self).spec_length() + 1,
    {
        let new = Node::new(value);
        Node::append_behind(&mut self.head, new);
        self.length += 1;
        assert(self@ =~= old(self)@.push(value));
    }

    /// Takes the oldest entry off the head; `None` where the log is empty.
    pub fn pop(&mut self) -> (popped: Option<String>)
        requires
            old(self).well_formed(),
        ensures
            final(self).well_formed(),
            final(self)@.len() == final(self).spec_length(),
            popped is Some <==> old(self).spec_length() > 0,
            match popped {
                None => {
                    &&& old(self)@.len() == 0
                    &&& final(self)@ == old(self)@
                    &&& final(self).spec_length() == old(self).spec_length()
                },
                Some(value) => {
                    &&& old(self)@.len() > 0
                    &&& value == old(self)@[0]
                    &&& final(self)@ == old(self)@.drop_first()
                    &&& final(self).spec_length() == old(self).spec_length() - 1
                },
            },
    {
        match self.head.take() {
            None => None,
            Some(head) => {
                let head = *head;
                let Node { value, next } = head;
                self.head = next;
                assert(old(self)@ =~= seq![value] + entries(next));
                assert(self@ =~= old(self)@.drop_first());
                self.length -= 1;
                Some(value)
            },
        }
    }
}

} // verus!
