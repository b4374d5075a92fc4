//! A packet as it is read back from the ring buffer.

use crate::model::Queue;
use crate::range;
use crate::range::ByteRange;
use std::collections::VecDeque;
use vstd::prelude::*;

verus! {

/// A borrowed view of a single packet from the ring buffer.
///
/// Because a packet's payload may wrap across the end of the backing array, it is represented as
/// two contiguous slices. `a` is the first (or only) part of the payload; `b` is the second part
/// and is empty when the payload is contiguous.
///
/// Use [`Self::copy_into`] or [`Self::copy_part_into`] to copy the payload into a flat buffer.
#[derive(Debug, PartialEq)]
pub struct Packet<'a> {
    /// First (or only) slice of the packet payload.
    pub a: &'a [u8],
    /// Second slice of the packet payload; empty when the payload is contiguous.
    pub b: &'a [u8],
}

impl<'a> View for Packet<'a> {
    type V = Seq<u8>;

    /// The payload.
    open spec fn view(&self) -> Seq<u8> {
        self.a@ + self.b@
    }
}

/// A slice that holds `bytes`.
pub open spec fn slice_with<'a>(bytes: Seq<u8>) -> &'a [u8] {
    choose|slice: &'a [u8]| slice@ == bytes
}

/// A collection that bytes can be appended to.
pub trait ExtendBytes {
    /// The bytes that the collection holds, in order.
    spec fn contents(&self) -> Seq<u8>;

    /// Appends `bytes` to the collection.
    fn extend_bytes(&mut self, bytes: &[u8])
        ensures
            final(self).contents() == old(self).contents() + bytes@,
    ;
}

impl ExtendBytes for Vec<u8> {
    open spec fn contents(&self) -> Seq<u8> {
        self@
    }

    fn extend_bytes(&mut self, bytes: &[u8])
        ensures
            final(self)@ == old(self)@ + bytes@,
    {
        let mut k: usize = 0;
        while k < bytes.len()
            invariant
                k <= bytes@.len(),
                self@ == old(self)@ + bytes@.take(k as int),
            decreases bytes@.len() - k,
        {
            self.push(bytes[k]);
            assert(bytes@.take(k + 1) =~= bytes@.take(k as int).push(bytes@[k as int]));
            k += 1;
        }
        assert(bytes@.take(k as int) =~= bytes@);
    }
}

impl ExtendBytes for VecDeque<u8> {
    open spec fn contents(&self) -> Seq<u8> {
        self@
    }

    fn extend_bytes(&mut self, bytes: &[u8])
        ensures
            final(self)@ == old(self)@ + bytes@,
    {
        let mut k: usize = 0;
        while k < bytes.len()
            invariant
                k <= bytes@.len(),
                self@ == old(self)@ + bytes@.take(k as int),
            decreases bytes@.len() - k,
        {
            self.push_back(bytes[k]);
            assert(bytes@.take(k + 1) =~= bytes@.take(k as int).push(bytes@[k as int]));
            k += 1;
        }
        assert(bytes@.take(k as int) =~= bytes@);
    }
}

/// Copies `data` into `buffer` from index `at` on.
fn copy_at(buffer: &mut [u8], at: usize, data: &[u8])
    requires
        at + data@.len() <= old(buffer)@.len(),
    ensures
        final(buffer)@ == old(buffer)@.take(at as int) + data@ + old(buffer)@.skip(
            at + data@.len(),
        ),
{
    let len: usize = buffer.len();
    let mut k: usize = 0;
    while k < data.len()
        invariant
            k <= data@.len(),
            len == buffer@.len(),
            buffer@.len() == old(buffer)@.len(),
            at + data@.len() <= buffer@.len(),
            buffer@ == old(buffer)@.take(at as int) + data@.take(k as int) + old(buffer)@.skip(
                at + k,
            ),
        decreases data@.len() - k,
    {
        let ghost before = buffer@;
        buffer[at + k] = data[k];
        proof {
            assert(buffer@ =~= before.update(at + k, data@[k as int]));
            assert(buffer@ =~= old(buffer)@.take(at as int) + data@.take(k + 1) + old(
                buffer,
            )@.skip(at + k + 1));
        }
        k += 1;
    }
    assert(data@.take(k as int) =~= data@);
}

impl<'a> Packet<'a> {
    /// The length of the payload is a `usize`.
    pub open spec fn wf(&self) -> bool {
        self@.len() <= usize::MAX
    }

    /// The packet is entry `i` of `queue`, split where the ring ends.
    pub open spec fn is_entry(&self, queue: Queue, i: int) -> bool {
        &&& self.a@ == queue.first_part(i)
        &&& self.b@ == queue.second_part(i)
        &&& self@ == queue.packets[i]
        &&& self.wf()
    }

    /// A packet that is entry `i` of `queue`.
    pub open spec fn entry(queue: Queue, i: int) -> Packet<'a> {
        Packet { a: slice_with(queue.first_part(i)), b: slice_with(queue.second_part(i)) }
    }

    /// Two packets that are the same entry of the same queue are equal.
    pub proof fn lemma_entry_unique(self, queue: Queue, i: int)
        requires
            self.is_entry(queue, i),
        ensures
            self == Packet::<'a>::entry(queue, i),
    {
        let entry = Packet::<'a>::entry(queue, i);
        assert(entry.a@ == self.a@ && entry.b@ == self.b@);
        assert(entry.a =~= self.a);
        assert(entry.b =~= self.b);
    }

    /// Returns the total length of the packet payload (`a.len() + b.len()`).
    pub fn len(&self) -> (len: usize)
        requires
            self.wf(),
        ensures
            len == self@.len(),
    {
        self.a.len() + self.b.len()
    }

    /// Returns `true` if the packet payload is empty.
    pub fn is_empty(&self) -> (empty: bool)
        ensures
            empty <==> self@.len() == 0,
    {
        self.a.is_empty() && self.b.is_empty()
    }

    /// Copies the full packet payload into `buffer`, which has exactly its length.
    pub fn copy_into(&self, buffer: &mut [u8])
        requires
            old(buffer)@.len() == self@.len(),
        ensures
            final(buffer)@ == self@,
    {
        copy_at(buffer, 0, self.a);
        copy_at(buffer, self.a.len(), self.b);
        assert(buffer@ =~= self@);
    }

    /// Copies the bytes in `range` of the packet payload into `buffer`, which has exactly the
    /// length of the range.
    ///
    /// The range is interpreted over the logical concatenation `[a | b]`, and lies within it.
    /// Any type implementing [`ByteRange`] is accepted, including `0..4`, `2..=5`, `1..`, `..3`,
    /// and `..`.
    pub fn copy_part_into<R: ByteRange>(&self, range: R, buffer: &mut [u8])
        requires
            self.wf(),
            range.definite(),
            range::start_of(range.limits().0) <= range::end_of(
                range.limits().1,
                self@.len() as int,
            ) <= self@.len(),
            old(buffer)@.len() == range::end_of(range.limits().1, self@.len() as int)
                - range::start_of(range.limits().0),
        ensures
            final(buffer)@ == self@.subrange(
                range::start_of(range.limits().0),
                range::end_of(range.limits().1, self@.len() as int),
            ),
    {
        let total: usize = self.len();
        let (lower, upper) = range.bounds();
        let start: usize = range::start_index(lower);
        let end: usize = range::end_index(upper, total);
        self.copy_span_into(start, end, buffer);
    }

    /// Copies the bytes of the payload from position `start` up to, not including, `end` into
    /// `buffer`.
    fn copy_span_into(&self, start: usize, end: usize, buffer: &mut [u8])
        requires
            start <= end <= self@.len(),
            old(buffer)@.len() == end - start,
        ensures
            final(buffer)@ == self@.subrange(start as int, end as int),
    {
        let a_len: usize = self.a.len();
        let mut buf_pos: usize = 0;

        // Copy the portion of `a` that falls within [start, end).
        if start < a_len {
            let a_end: usize = if end < a_len {
                end
            } else {
                a_len
            };
            let chunk = &self.a[start..a_end];
            copy_at(buffer, 0, chunk);
            buf_pos = a_end - start;
            assert(buffer@.take(buf_pos as int) =~= chunk@);
            assert(chunk@ =~= self@.subrange(start as int, a_end as int));
        }
        let ghost copied = buffer@.take(buf_pos as int);
        assert(copied =~= self@.subrange(start as int, start + buf_pos));

        // Copy the portion of `b` that falls within [start, end).
        if end > a_len {
            let b_start: usize = if start < a_len {
                0
            } else {
                start - a_len
            };
            let chunk = &self.b[b_start..end - a_len];
            copy_at(buffer, buf_pos, chunk);
            assert(buffer@ =~= copied + chunk@);
            assert(chunk@ =~= self@.subrange(start + buf_pos, end as int));
        } else {
            assert(buffer@ =~= copied);
        }
        assert(self@.subrange(start as int, end as int) =~= self@.subrange(
            start as int,
            start + buf_pos,
        ) + self@.subrange(start + buf_pos, end as int));
    }

    /// Extends `target` with the full packet payload.
    ///
    /// Appends the bytes from `a` followed by `b` to `target`. Works with any collection that
    /// implements [`ExtendBytes`], such as `Vec<u8>`.
    pub fn extend_into<E: ExtendBytes>(&self, target: &mut E)
        ensures
            final(target).contents() == old(target).contents() + self@,
    {
        target.extend_bytes(self.a);
        target.extend_bytes(self.b);
        assert(target.contents() =~= old(target).contents() + self@);
    }
}

} // verus!
