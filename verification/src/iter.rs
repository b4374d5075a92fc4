//! Iteration over the packets of a ring buffer.

#[allow(unused_imports)]
use crate::framing;
use crate::model::Queue;
use crate::packet::Packet;
use crate::wrapping;
use vstd::prelude::*;

verus! {

/// Iterator over packets from oldest to newest.
/// See [`BytearrayRingbuffer::iter`](crate::BytearrayRingbuffer::iter).
pub struct Iter<'a, const N: usize> {
    buffer: &'a [u8; N],
    /// Byte index in `buffer` where the oldest packet left begins.
    tail: usize,
    /// Number of packets left.
    count: usize,
    queue: Ghost<Queue>,
}

impl<'a, const N: usize> View for Iter<'a, N> {
    type V = Queue;

    /// The packets that are left.
    closed spec fn view(&self) -> Queue {
        self.queue@
    }
}

impl<'a, const N: usize> Iter<'a, N> {
    #[verifier::type_invariant]
    spec fn inv(self) -> bool {
        &&& framing::stored(self.buffer@, self.queue@)
        &&& self.tail == self.queue@.tail
        &&& self.count == self.queue@.packets.len()
    }

    /// The packets that are left, in the order in which they come.
    pub open spec fn upcoming(&self) -> Seq<Packet<'a>> {
        Seq::new(self@.packets.len(), |i: int| Packet::entry(self@, i))
    }

    /// Starts an iteration over the packets of `queue`, which `buffer` holds.
    pub(crate) fn over(
        buffer: &'a [u8; N],
        tail: usize,
        count: usize,
        Ghost(queue): Ghost<Queue>,
    ) -> (iter: Self)
        requires
            framing::stored(buffer@, queue),
            tail == queue.tail,
            count == queue.packets.len(),
        ensures
            iter@ == queue,
    {
        Iter { buffer, tail, count, queue: Ghost(queue) }
    }
}

impl<'a, const N: usize> Iterator for Iter<'a, N> {
    type Item = Packet<'a>;

    /// Returns the oldest packet left.
    fn next(&mut self) -> (item: Option<Packet<'a>>)
        ensures
            old(self)@.valid(),
            old(self)@.capacity == N,
            match item {
                Some(packet) => {
                    &&& old(self)@.packets.len() > 0
                    &&& packet.is_entry(old(self)@, 0)
                    &&& final(self)@ == old(self)@.pop_front()
                },
                None => old(self)@.packets.len() == 0 && final(self)@ == old(self)@,
            },
    {
        proof {
            use_type_invariant(&*self);
        }
        if self.count == 0 {
            return None;
        }
        let buffer: &'a [u8; N] = self.buffer;
        let ghost queue = self.queue@;
        let ghost before = self.upcoming();
        let packet = framing::read_oldest(buffer, self.tail, Ghost(queue));
        proof {
            framing::lemma_stored_pop_front(buffer@, queue);
        }
        *self = Iter {
            buffer,
            tail: wrapping::add_wrapping::<N>(self.tail, packet.len() + 8),
            count: self.count - 1,
            queue: Ghost(queue.pop_front()),
        };
        proof {
            packet.lemma_entry_unique(queue, 0);
            assert forall|i: int| 0 <= i < before.len() - 1 implies #[trigger] self.upcoming()[i]
                == before[i + 1] by {
                framing::lemma_entry_pop_front(queue, i);
            }
            assert(self.upcoming() =~= before.drop_first());
        }
        Some(packet)
    }
}

impl<'a, const N: usize> vstd::std_specs::iter::IteratorSpecImpl for Iter<'a, N> {
    open spec fn obeys_prophetic_iter_laws(&self) -> bool {
        true
    }

    open spec fn remaining(&self) -> Seq<Packet<'a>> {
        self.upcoming()
    }

    open spec fn will_return_none(&self) -> bool {
        true
    }

    open spec fn decrease(&self) -> Option<nat> {
        Some(self@.packets.len())
    }

    open spec fn initial_value_relation(&self, init: &Self) -> bool {
        init@ == self@
    }

    open spec fn peek(&self, index: int) -> Option<Packet<'a>> {
        if 0 <= index < self@.packets.len() {
            Some(self.upcoming()[index])
        } else {
            None
        }
    }
}

/// Iterator over packets from newest to oldest.
/// See [`BytearrayRingbuffer::iter_backwards`](crate::BytearrayRingbuffer::iter_backwards).
pub struct IterBackwards<'a, const N: usize> {
    buffer: &'a [u8; N],
    /// Byte index in `buffer` behind the newest packet left.
    head: usize,
    /// Number of packets left.
    count: usize,
    queue: Ghost<Queue>,
}

impl<'a, const N: usize> View for IterBackwards<'a, N> {
    type V = Queue;

    /// The packets that are left.
    closed spec fn view(&self) -> Queue {
        self.queue@
    }
}

impl<'a, const N: usize> IterBackwards<'a, N> {
    #[verifier::type_invariant]
    spec fn inv(self) -> bool {
        &&& framing::stored(self.buffer@, self.queue@)
        &&& self.head == self.queue@.head()
        &&& self.count == self.queue@.packets.len()
    }

    /// The packets that are left, in the order in which they come.
    pub open spec fn upcoming(&self) -> Seq<Packet<'a>> {
        Seq::new(
            self@.packets.len(),
            |i: int| Packet::entry(self@, self@.packets.len() - 1 - i),
        )
    }

    /// Starts an iteration over the packets of `queue`, which `buffer` holds.
    pub(crate) fn over(
        buffer: &'a [u8; N],
        head: usize,
        count: usize,
        Ghost(queue): Ghost<Queue>,
    ) -> (iter: Self)
        requires
            framing::stored(buffer@, queue),
            head == queue.head(),
            count == queue.packets.len(),
        ensures
            iter@ == queue,
    {
        IterBackwards { buffer, head, count, queue: Ghost(queue) }
    }
}

impl<'a, const N: usize> Iterator for IterBackwards<'a, N> {
    type Item = Packet<'a>;

    /// Returns the newest packet left.
    fn next(&mut self) -> (item: Option<Packet<'a>>)
        ensures
            old(self)@.valid(),
            old(self)@.capacity == N,
            match item {
                Some(packet) => {
                    &&& old(self)@.packets.len() > 0
                    &&& packet.is_entry(old(self)@, old(self)@.packets.len() - 1)
                    &&& final(self)@ == old(self)@.pop_back()
                },
                None => old(self)@.packets.len() == 0 && final(self)@ == old(self)@,
            },
    {
        proof {
            use_type_invariant(&*self);
        }
        if self.count == 0 {
            return None;
        }
        let buffer: &'a [u8; N] = self.buffer;
        let ghost queue = self.queue@;
        let ghost before = self.upcoming();
        let ghost last = queue.packets.len() - 1;
        let packet = framing::read_newest(buffer, self.head, Ghost(queue));
        proof {
            framing::lemma_stored_pop_back(buffer@, queue);
            framing::lemma_offset(queue.packets, last);
            assert(queue.packets.take(last) =~= queue.packets.drop_last());
        }
        *self = IterBackwards {
            buffer,
            head: wrapping::sub_wrapping::<N>(self.head, packet.len() + 8),
            count: self.count - 1,
            queue: Ghost(queue.pop_back()),
        };
        proof {
            packet.lemma_entry_unique(queue, last);
            assert forall|i: int| 0 <= i < before.len() - 1 implies #[trigger] self.upcoming()[i]
                == before[i + 1] by {
                framing::lemma_entry_pop_back(queue, last - 1 - i);
            }
            assert(self.upcoming() =~= before.drop_first());
        }
        Some(packet)
    }
}

impl<'a, const N: usize> vstd::std_specs::iter::IteratorSpecImpl for IterBackwards<'a, N> {
    open spec fn obeys_prophetic_iter_laws(&self) -> bool {
        true
    }

    open spec fn remaining(&self) -> Seq<Packet<'a>> {
        self.upcoming()
    }

    open spec fn will_return_none(&self) -> bool {
        true
    }

    open spec fn decrease(&self) -> Option<nat> {
        Some(self@.packets.len())
    }

    open spec fn initial_value_relation(&self, init: &Self) -> bool {
        init@ == self@
    }

    open spec fn peek(&self, index: int) -> Option<Packet<'a>> {
        if 0 <= index < self@.packets.len() {
            Some(self.upcoming()[index])
        } else {
            None
        }
    }
}

} // verus!
