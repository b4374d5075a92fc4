//! The mathematical model of the ring buffer.
//!
//! A [`Queue`] is what a buffer holds, without the bytes it holds it in: the payloads in order,
//! and the byte index at which the oldest one begins. A [`Draft`] is a queue with a packet that is
//! still being written. The contracts of the executable types are stated over these two.

use vstd::prelude::*;

verus! {

/// The byte index `i` of a ring of `n` bytes, for an `i` that runs past the end at most once.
pub open spec fn wrap(i: int, n: int) -> int {
    if i < n {
        i
    } else {
        i - n
    }
}

/// The number of bytes that `packets` take up: each one its payload and two length fields.
pub open spec fn framed_len(packets: Seq<Seq<u8>>) -> nat
    decreases packets.len(),
{
    if packets.len() == 0 {
        0
    } else {
        framed_len(packets.drop_last()) + packets.last().len() + 8
    }
}

/// What a ring buffer holds.
#[verifier::ext_equal]
pub struct Queue {
    /// The payloads, oldest first.
    pub packets: Seq<Seq<u8>>,
    /// The byte index at which the oldest packet begins.
    pub tail: int,
    /// The size of the ring in bytes.
    pub capacity: int,
}

impl Queue {
    /// The queue that nothing has been pushed to yet.
    pub open spec fn empty(capacity: int) -> Queue {
        Queue { packets: Seq::empty(), tail: 0, capacity }
    }

    /// The ring can hold a packet, its size fits the length fields, and what is stored fits the
    /// ring.
    pub open spec fn valid(self) -> bool {
        &&& 8 < self.capacity < u32::MAX
        &&& 0 <= self.tail < self.capacity
        &&& framed_len(self.packets) <= self.capacity
    }

    /// The number of bytes that belong to a packet.
    pub open spec fn used(self) -> int {
        framed_len(self.packets) as int
    }

    /// The number of bytes that belong to no packet.
    pub open spec fn unused(self) -> int {
        self.capacity - self.used()
    }

    /// The byte index at which the next packet will begin.
    pub open spec fn head(self) -> int {
        wrap(self.tail + self.used(), self.capacity)
    }

    /// The payload length that fits the unused bytes beside its two length fields, or zero.
    pub open spec fn free(self) -> int {
        if self.unused() >= 8 {
            self.unused() - 8
        } else {
            0
        }
    }

    /// Whether a packet with a payload of `len` bytes can be added.
    pub open spec fn fits(self, len: int) -> bool {
        len + 8 <= self.unused()
    }

    /// The queue with `data` added as its newest packet.
    pub open spec fn push(self, data: Seq<u8>) -> Queue {
        Queue { packets: self.packets.push(data), ..self }
    }

    /// The queue without its oldest packet.
    pub open spec fn pop_front(self) -> Queue {
        Queue {
            packets: self.packets.drop_first(),
            tail: wrap(self.tail + self.packets[0].len() + 8, self.capacity),
            ..self
        }
    }

    /// The queue without its newest packet.
    pub open spec fn pop_back(self) -> Queue {
        Queue { packets: self.packets.drop_last(), ..self }
    }

    /// The queue without its oldest packets, as few of them as leave `need` unused bytes.
    pub open spec fn make_room(self, need: int) -> Queue
        decreases self.packets.len(),
    {
        if need <= self.unused() || self.packets.len() == 0 {
            self
        } else {
            self.pop_front().make_room(need)
        }
    }

    /// The queue with `data` added as its newest packet, in place of as few of the oldest packets
    /// as possible.
    pub open spec fn push_force(self, data: Seq<u8>) -> Queue {
        self.make_room((data.len() + 8) as int).push(data)
    }

    /// The byte index at which the payload of packet `i` begins.
    pub open spec fn data_pos(self, i: int) -> int {
        wrap(self.tail + framed_len(self.packets.take(i)) + 4, self.capacity)
    }

    /// Whether the payload of packet `i` lies in one piece.
    pub open spec fn contiguous(self, i: int) -> bool {
        self.data_pos(i) + self.packets[i].len() <= self.capacity
    }

    /// How many bytes of the payload of packet `i` lie before the end of the ring.
    pub open spec fn split(self, i: int) -> int {
        if self.contiguous(i) {
            self.packets[i].len() as int
        } else {
            self.capacity - self.data_pos(i)
        }
    }

    /// The part of the payload of packet `i` that lies before the end of the ring.
    pub open spec fn first_part(self, i: int) -> Seq<u8> {
        self.packets[i].take(self.split(i))
    }

    /// The part of the payload of packet `i` that has wrapped to the start of the ring.
    pub open spec fn second_part(self, i: int) -> Seq<u8> {
        self.packets[i].skip(self.split(i))
    }

    /// The queue after the ring has been rotated, where that is needed to bring the payload of
    /// packet `i` into one piece.
    pub open spec fn make_contiguous(self, i: int) -> Queue {
        if self.contiguous(i) {
            self
        } else {
            Queue {
                tail: wrap(self.tail + self.capacity - self.data_pos(i), self.capacity),
                ..self
            }
        }
    }
}

/// A queue with a packet that is being written behind its newest one.
#[verifier::ext_equal]
pub struct Draft {
    /// What the ring holds besides the packet being written.
    pub queue: Queue,
    /// The payload written so far.
    pub payload: Seq<u8>,
    /// Whether old packets make room for the new one.
    pub force: bool,
}

impl Draft {
    /// The draft of an empty packet.
    pub open spec fn begin(queue: Queue, force: bool) -> Draft {
        Draft {
            queue: if force {
                queue.make_room(8)
            } else {
                queue
            },
            payload: Seq::empty(),
            force,
        }
    }

    /// The queue is valid, and has room for the packet as it has been written so far.
    pub open spec fn valid(self) -> bool {
        &&& self.queue.valid()
        &&& self.queue.fits(self.payload.len() as int)
    }

    /// Whether `len` more bytes can be written.
    pub open spec fn accepts(self, len: int) -> bool {
        if self.force {
            self.payload.len() + len + 8 <= self.queue.capacity
        } else {
            self.queue.fits(self.payload.len() + len)
        }
    }

    /// The draft with `data` written behind its payload.
    pub open spec fn push(self, data: Seq<u8>) -> Draft {
        Draft {
            queue: if self.force {
                self.queue.make_room((self.payload.len() + data.len() + 8) as int)
            } else {
                self.queue
            },
            payload: self.payload + data,
            ..self
        }
    }

    /// The queue with the finished packet added.
    pub open spec fn commit(self) -> Queue {
        self.queue.push(self.payload)
    }
}

} // verus!
