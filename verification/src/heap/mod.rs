//! A binary heap of message notifications: the device with the most
//! messages is checked first.
use vstd::prelude::*;
use crate::heap::notification::MessageNotification;

pub mod notification;

verus! {

/// The messages of the notification at a position; positions count from 1.
pub open spec fn messages_at(heap: Seq<MessageNotification>, position: int) -> u64 {
    heap[position - 1].no_messages
}

/// The heap order: no notification has more messages than the one at half
/// its position.
pub open spec fn is_heap(heap: Seq<MessageNotification>) -> bool {
    forall|position: int|
        2 <= position <= heap.len() ==> messages_at(heap, position / 2) >= #[trigger] messages_at(
            heap,
            position,
        )
}

/// The heap order but at one position, which may hold more messages than
/// the position above it, though not more than its own children may.
pub open spec fn is_heap_but_at(heap: Seq<MessageNotification>, rising: int) -> bool {
    &&& forall|position: int|
        2 <= position <= heap.len() && position != rising ==> messages_at(heap, position / 2)
            >= #[trigger] messages_at(heap, position)
    &&& forall|position: int|
        2 <= position <= heap.len() && position / 2 == rising && rising >= 2 ==> messages_at(
            heap,
            rising / 2,
        ) >= #[trigger] messages_at(heap, position)
}

/// The notifications with those at two positions exchanged.
pub open spec fn exchanged(heap: Seq<MessageNotification>, first: int, second: int) -> Seq<
    MessageNotification,
> {
    heap.update(first - 1, heap[second - 1]).update(second - 1, heap[first - 1])
}

/// The heap after the notification at `position` has risen: as long as it
/// has at least as many messages as the one at half its position, the two
/// change places.
pub open spec fn risen(heap: Seq<MessageNotification>, position: int) -> Seq<MessageNotification>
    decreases position,
{
    if 2 <= position <= heap.len() && messages_at(heap, position) >= messages_at(
        heap,
        position / 2,
    ) {
        risen(exchanged(heap, position, position / 2), position / 2)
    } else {
        heap
    }
}

/// The heap after a notification was added at the end and has risen.
pub open spec fn with_added(
    heap: Seq<MessageNotification>,
    notification: MessageNotification,
) -> Seq<MessageNotification> {
    risen(heap.push(notification), heap.len() as int + 1)
}

/// The child of `position` with the most messages: of two alike, and where
/// there is one only, the first.
pub open spec fn greater_child(heap: Seq<MessageNotification>, position: int) -> int {
    if 2 * position + 1 <= heap.len() && messages_at(heap, 2 * position) < messages_at(
        heap,
        2 * position + 1,
    ) {
        2 * position + 1
    } else {
        2 * position
    }
}

/// The heap after the notification at `position` has sunk: as long as it
/// has a child and the greater of its children has at least as many
/// messages, the two change places.
pub open spec fn sunk(heap: Seq<MessageNotification>, position: int) -> Seq<MessageNotification>
    decreases heap.len() - position,
{
    if 1 <= position && 2 * position <= heap.len() && messages_at(
        heap,
        greater_child(heap, position),
    ) >= messages_at(heap, position) {
        sunk(exchanged(heap, position, greater_child(heap, position)), greater_child(heap, position))
    } else {
        heap
    }
}

/// The heap order but below one position, which may hold fewer messages
/// than its children, though the position above it holds no fewer than
/// they.
pub open spec fn is_heap_but_below(heap: Seq<MessageNotification>, sinking: int) -> bool {
    &&& forall|position: int|
        2 <= position <= heap.len() && position / 2 != sinking ==> messages_at(
            heap,
            position / 2,
        ) >= #[trigger] messages_at(heap, position)
    &&& forall|position: int|
        2 <= position <= heap.len() && position / 2 == sinking && sinking >= 2 ==> messages_at(
            heap,
            sinking / 2,
        ) >= #[trigger] messages_at(heap, position)
}

/// A heap whose first notification gave way to the last is in heap order
/// but below the first position.
pub proof fn lemma_beheaded(heap: Seq<MessageNotification>)
    requires
        is_heap(heap),
        heap.len() >= 1,
    ensures
        is_heap_but_below(beheaded(heap), 1),
{
    let after = beheaded(heap);
    assert forall|position: int|
        2 <= position <= after.len() && position / 2 != 1 implies messages_at(
        after,
        position / 2,
    ) >= #[trigger] messages_at(after, position) by {
        assert(messages_at(heap, position / 2) >= messages_at(heap, position));
    }
}

/// A notification that has no more messages than its greater child changes
/// places with it: the heap order then holds but below the place of that
/// child.
pub proof fn lemma_sunk_step(heap: Seq<MessageNotification>, sinking: int)
    requires
        1 <= sinking,
        2 * sinking <= heap.len(),
        is_heap_but_below(heap, sinking),
        messages_at(heap, greater_child(heap, sinking)) >= messages_at(heap, sinking),
    ensures
        is_heap_but_below(
            exchanged(heap, sinking, greater_child(heap, sinking)),
            greater_child(heap, sinking),
        ),
{
    let child = greater_child(heap, sinking);
    let after = exchanged(heap, sinking, child);
    assert forall|position: int|
        2 <= position <= after.len() && position / 2 != child implies messages_at(
        after,
        position / 2,
    ) >= #[trigger] messages_at(after, position) by {
        if position == child {
        } else if position / 2 == sinking {
            // the other child
            assert(messages_at(heap, child) >= messages_at(heap, position));
        } else if position == sinking {
            assert(messages_at(heap, sinking / 2) >= messages_at(heap, child));
        } else {
            assert(messages_at(heap, position / 2) >= messages_at(heap, position));
        }
    }
    assert forall|position: int|
        2 <= position <= after.len() && position / 2 == child && child >= 2 implies messages_at(
        after,
        child / 2,
    ) >= #[trigger] messages_at(after, position) by {
        assert(messages_at(heap, position / 2) >= messages_at(heap, position));
    }
}

/// A notification that has no child, or more messages than its greater
/// child, has sunk as far as it goes: the heap order holds.
pub proof fn lemma_sunk_done(heap: Seq<MessageNotification>, sinking: int)
    requires
        1 <= sinking,
        is_heap_but_below(heap, sinking),
        2 * sinking > heap.len() || messages_at(heap, greater_child(heap, sinking)) < messages_at(
            heap,
            sinking,
        ),
    ensures
        is_heap(heap),
{
    assert forall|position: int| 2 <= position <= heap.len() implies messages_at(
        heap,
        position / 2,
    ) >= #[trigger] messages_at(heap, position) by {
        if position / 2 == sinking {
            let child = greater_child(heap, sinking);
            assert(messages_at(heap, child) >= messages_at(heap, position));
        }
    }
}

/// The heap without its first notification, the last in its place.
pub open spec fn beheaded(heap: Seq<MessageNotification>) -> Seq<MessageNotification> {
    heap.update(0, heap.last()).drop_last()
}

/// Exchanging two notifications changes no count.
pub proof fn lemma_exchanged_multiset(heap: Seq<MessageNotification>, first: int, second: int)
    requires
        1 <= first <= heap.len(),
        1 <= second <= heap.len(),
    ensures
        exchanged(heap, first, second).to_multiset() == heap.to_multiset(),
{
    broadcast use vstd::multiset::group_multiset_axioms;

    let a = heap[first - 1];
    let b = heap[second - 1];
    let half = heap.update(first - 1, b);
    vstd::seq_lib::to_multiset_update(heap, first - 1, b);
    vstd::seq_lib::to_multiset_update(half, second - 1, a);
    heap.to_multiset_ensures();
    assert(heap.contains(a));
    assert(heap.contains(b));
    if first == second {
        assert(exchanged(heap, first, second) =~= heap);
    } else {
        assert(half[second - 1] == b);
        assert(exchanged(heap, first, second).to_multiset() =~= heap.to_multiset());
    }
}

/// In a heap no notification has more messages than the first.
pub proof fn lemma_first_has_most(heap: Seq<MessageNotification>, position: int)
    requires
        is_heap(heap),
        1 <= position <= heap.len(),
    ensures
        messages_at(heap, 1) >= messages_at(heap, position),
    decreases position,
{
    if position >= 2 {
        lemma_first_has_most(heap, position / 2);
    }
}

/// The heap.
pub struct MessageChecker {
    pub length: usize,
    heap: Vec<Box<MessageNotification>>,
}

impl View for MessageChecker {
    type V = Seq<MessageNotification>;

    /// The notifications as they lie in the heap, the first to leave first.
    closed spec fn view(&self) -> Seq<MessageNotification> {
        Seq::new(self.heap@.len(), |i: int| *self.heap@[i])
    }
}

impl MessageChecker {
    /// The count of notifications, as the field `length` holds it.
    pub closed spec fn spec_length(self) -> usize {
        self.length
    }

    /// The invariant of the heap: `length` counts the notifications, and
    /// they lie in heap order.
    pub closed spec fn well_formed(self) -> bool {
        self.length == self.heap@.len() && is_heap(self@)
    }

    /// The number of notifications, as the field `length` holds it.
    pub fn len(&self) -> (count: usize)
        ensures
            count == self.spec_length(),
    {
        self.length
    }

    /// A heap without notifications.
    pub fn new_empty() -> (fresh: MessageChecker)
        ensures
            fresh.well_formed(),
            fresh@ == Seq::<MessageNotification>::empty(),
            fresh.spec_length() == 0,
            fresh@.len() == fresh.spec_length(),
            is_heap(fresh@),
    {
        let fresh = MessageChecker { length: 0, heap: Vec::new() };
        assert(fresh@ =~= Seq::<MessageNotification>::empty());
        fresh
    }

    /// Exchanges the notifications at two positions.
    fn swap(&mut self, pos1: usize, pos2: usize)
        requires
            1 <= pos1 <= old(self).heap@.len(),
            1 <= pos2 <= old(self).heap@.len(),
        ensures
            final(self)@ == exchanged(old(self)@, pos1 as int, pos2 as int),
            final(self).length == old(self).length,
            final(self).heap@.len() == old(self).heap@.len(),
    {
        let mut held = self.heap[pos1 - 1].clone();
        core::mem::swap(&mut self.heap[pos2 - 1], &mut held);
        self.heap[pos1 - 1] = held;
        assert(self@ =~= exchanged(old(self)@, pos1 as int, pos2 as int));
    }

    /// Whether the notification at `pos1` has at least as many messages as
    /// the one at `pos2`.
    fn has_more_messages(&self, pos1: usize, pos2: usize) -> (more: bool)
        requires
            1 <= pos1 <= self.heap@.len(),
            1 <= pos2 <= self.heap@.len(),
        ensures
            more == (messages_at(self@, pos1 as int) >= messages_at(self@, pos2 as int)),
    {
        let a = &self.heap[pos1 - 1];
        let b = &self.heap[pos2 - 1];
        a.no_messages >= b.no_messages
    }

    /// Adds a notification at the end and lets it rise past every
    /// notification above it that has no more messages.
    pub fn add(&mut self, notification: MessageNotification)
        requires
            old(self).well_formed(),
        ensures
            final(self).well_formed(),
            final(self).spec_length() == old(self).spec_length() + 1,
            final(self)@.len() == final(self).spec_length(),
            final(self)@ == with_added(old(self)@, notification),
            final(self)@.to_multiset() == old(self)@.to_multiset().insert(notification),
            is_heap(old(self)@),
            is_heap(final(self)@),
    {
        self.heap.push(Box::new(notification));
        self.length = self.heap.len();
        proof {
            assert(self@ =~= old(self)@.push(notification));
            vstd::seq_lib::to_multiset_build(old(self)@, notification);
            if is_heap(old(self)@) {
                assert forall|position: int|
                    2 <= position <= self@.len() && position != self.length implies messages_at(
                    self@,
                    position / 2,
                ) >= #[trigger] messages_at(self@, position) by {
                    assert(messages_at(old(self)@, position / 2) >= messages_at(
                        old(self)@,
                        position,
                    ));
                }
            }
        }

        if self.length > 1 {
            let mut i = self.length;
            while i / 2 > 0 && self.has_more_messages(i, i / 2)
                invariant
                    1 <= i <= self.length,
                    self.length == self.heap@.len(),
                    self.length == old(self).length + 1,
                    self@.to_multiset() == old(self)@.to_multiset().insert(notification),
                    is_heap(old(self)@) ==> is_heap_but_at(self@, i as int),
                    risen(self@, i as int) == with_added(old(self)@, notification),
                decreases i,
            {
                let ghost before = self@;
                self.swap(i, i / 2);
                proof {
                    lemma_exchanged_multiset(before, i as int, (i / 2) as int);
                    if is_heap(old(self)@) {
                        lemma_risen(before, i as int);
                    }
                }
                i /= 2;
            }
        }
    }

    /// Takes the first notification off the heap, which is one with the most
    /// messages. The last notification takes its place and sinks below every
    /// child with at least as many messages, which keeps the heap in order.
    pub fn pop(&mut self) -> (popped: Option<MessageNotification>)
        requires
            old(self).well_formed(),
        ensures
            final(self).well_formed(),
            final(self)@.len() == final(self).spec_length(),
            popped is Some <==> old(self).spec_length() > 0,
            match popped {
                None => {
                    &&& old(self)@.len() == 0
                    &&& final(self)@ == old(self)@
                    &&& final(self).spec_length() == 0
                },
                Some(first) => {
                    &&& old(self)@.len() > 0
                    &&& first == old(self)@[0]
                    &&& final(self).spec_length() == old(self).spec_length() - 1
                    &&& final(self)@ == sunk(beheaded(old(self)@), 1)
                    &&& final(self)@.to_multiset() == old(self)@.to_multiset().remove(first)
                    &&& is_heap(old(self)@)
                    &&& is_heap(final(self)@)
                    &&& forall|i: int|
                        0 <= i < old(self)@.len() ==> first.no_messages >= (
                        #[trigger] old(self)@[i]).no_messages
                },
            },
    {
        if self.length > 0 {
            let elem = self.heap.swap_remove(0);
            self.length = self.heap.len();
            proof {
                let was = old(self)@;
                let moved = was.update(0, was.last());
                assert(self@ =~= moved.drop_last());
                vstd::seq_lib::to_multiset_update(was, 0, was.last());
                vstd::seq_lib::to_multiset_remove(moved, moved.len() - 1);
                assert(moved.remove(moved.len() - 1) =~= moved.drop_last());
                was.to_multiset_ensures();
                assert(was.contains(was.last()));
                assert(was.contains(was[0]));
                broadcast use vstd::multiset::group_multiset_axioms;

                assert(self@.to_multiset() =~= was.to_multiset().remove(was[0]));
                if is_heap(was) {
                    assert forall|i: int| 0 <= i < was.len() implies was[0].no_messages >= (
                    #[trigger] was[i]).no_messages by {
                        lemma_first_has_most(was, i + 1);
                    }
                    lemma_beheaded(was);
                }
            }
            let mut i: usize = 1;
            while i <= self.length / 2
                invariant_except_break
                    sunk(self@, i as int) == sunk(beheaded(old(self)@), 1),
                    is_heap(old(self)@) ==> is_heap_but_below(self@, i as int),
                invariant
                    1 <= i,
                    self.length == self.heap@.len(),
                    self.length == old(self).length - 1,
                    self@.to_multiset() == old(self)@.to_multiset().remove(*elem),
                ensures
                    self@ == sunk(beheaded(old(self)@), 1),
                    is_heap(old(self)@) ==> is_heap(self@),
                decreases self.length - i,
            {
                let first = i * 2;
                let greater = if first < self.length && !self.has_more_messages(first, first + 1) {
                    first + 1
                } else {
                    first
                };
                if self.has_more_messages(greater, i) {
                    let ghost before = self@;
                    self.swap(i, greater);
                    proof {
                        lemma_exchanged_multiset(before, i as int, greater as int);
                        if is_heap(old(self)@) {
                            lemma_sunk_step(before, i as int);
                        }
                    }
                    i = greater;
                } else {
                    proof {
                        if is_heap(old(self)@) {
                            lemma_sunk_done(self@, i as int);
                        }
                    }
                    break ;
                }
            }
            Some(*elem)
        } else {
            assert(self@ =~= Seq::<MessageNotification>::empty());
            None
        }
    }
}

/// A notification that has at least as many messages as the one above it
/// changes places with it: the heap order then holds but at the place above.
pub proof fn lemma_risen(heap: Seq<MessageNotification>, rising: int)
    requires
        2 <= rising <= heap.len(),
        is_heap_but_at(heap, rising),
        messages_at(heap, rising) >= messages_at(heap, rising / 2),
    ensures
        is_heap_but_at(exchanged(heap, rising, rising / 2), rising / 2),
{
    let above = rising / 2;
    let after = exchanged(heap, rising, above);
    assert forall|position: int|
        2 <= position <= after.len() && position != above implies messages_at(
        after,
        position / 2,
    ) >= #[trigger] messages_at(after, position) by {
        if position == rising {
        } else if position / 2 == above {
            assert(messages_at(heap, position / 2) >= messages_at(heap, position));
        } else if position / 2 == rising {
            assert(messages_at(heap, rising / 2) >= messages_at(heap, position));
        } else {
            assert(messages_at(heap, position / 2) >= messages_at(heap, position));
        }
    }
    assert forall|position: int|
        2 <= position <= after.len() && position / 2 == above && above >= 2 implies messages_at(
        after,
        above / 2,
    ) >= #[trigger] messages_at(after, position) by {
        assert(messages_at(heap, above / 2) >= messages_at(heap, above));
        if position != rising {
            assert(messages_at(heap, position / 2) >= messages_at(heap, position));
        }
    }
}

} // verus!
