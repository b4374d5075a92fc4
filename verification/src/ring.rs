//! The ring buffer.

#[allow(unused_imports)]
use crate::framing;
use crate::iter::{Iter, IterBackwards};
use crate::length;
#[allow(unused_imports)]
use crate::model;
#[allow(unused_imports)]
use crate::model::Draft;
use crate::model::Queue;
use crate::multipart::MultipartPush;
use crate::packet::Packet;
use crate::wrapping;
use vstd::prelude::*;

verus! {

/// Returned when a [`BytearrayRingbuffer::push`] cannot store `data` without dropping older packets.
///
/// For [`BytearrayRingbuffer::push`], this means the unused region is too small. For
/// [`BytearrayRingbuffer::push_force`], this is only returned when `data.len() > N - 8` (a single
/// packet cannot fit in the buffer at all).
#[derive(Copy, Clone, Debug)]
pub struct NotEnoughSpaceError;

/// Fixed-capacity FIFO of variable-length byte slices, backed by `[u8; N]` with no heap allocation.
///
/// Each stored packet uses `data.len() + 8` bytes: a leading `u32` length (native endian), the
/// payload, then the same length again. The queue is a ring: `head` is where the next `push` writes;
/// `tail` is the oldest packet. Payloads may wrap across the end of the array; most accessors return
/// a [`Packet`] whose slices `a` and `b` concatenate to the full payload.
///
/// The backing array is only modified by this crate's own logic (the field is private). Methods
/// maintain consistent framing; [`Self::pop_front`] and iterators rely on that.
///
/// Requirements: `N > 8` and `N < u32::MAX` (see [`Self::new`]).
pub struct BytearrayRingbuffer<const N: usize> {
    buffer: [u8; N],
    /// Byte index in `buffer` where the next [`Self::push`] will begin writing.
    head: usize,
    /// Byte index in `buffer` where the oldest packet begins.
    tail: usize,
    /// Number of packets currently stored.
    count: usize,
    /// The payloads currently stored, oldest first.
    packets: Ghost<Seq<Seq<u8>>>,
}

impl<const N: usize> View for BytearrayRingbuffer<N> {
    type V = Queue;

    /// What the buffer holds.
    closed spec fn view(&self) -> Queue {
        Queue { packets: self.packets@, tail: self.tail as int, capacity: N as int }
    }
}

impl<const N: usize> BytearrayRingbuffer<N> {
    /// The bytes of the backing array.
    pub closed spec fn bytes(&self) -> Seq<u8> {
        self.buffer@
    }

    /// The fields agree with what the buffer holds.
    pub closed spec fn consistent(&self) -> bool {
        &&& framing::stored(self.buffer@, self@)
        &&& self.head == self@.head()
        &&& self.count == self@.packets.len()
    }

    /// What holds of every buffer between two calls.
    pub open spec fn wf(&self) -> bool {
        &&& self@.valid()
        &&& self@.capacity == N
        &&& self.consistent()
    }

    /// Between two calls, the backing array holds the packets one behind the other from `tail` on,
    /// each as a length field, the payload, and the same length field again.
    pub proof fn law_bytes_hold_frames(&self)
        requires
            self.wf(),
        ensures
            framing::stored(self.bytes(), self@),
    {
    }

    /// Creates an empty ring buffer.
    pub fn new() -> (ring: Self)
        requires
            N > 8,
            N < u32::MAX,
        ensures
            ring.wf(),
            ring@ == Queue::empty(N as int),
            ring.bytes() == Seq::new(N as nat, |i: int| 0u8),
    {
        BytearrayRingbuffer {
            buffer: [0; N],
            head: 0,
            tail: 0,
            count: 0,
            packets: Ghost(Seq::empty()),
        }
    }

    /// Returns the largest payload length that can fit in the currently unused byte range, after
    /// accounting for the 8-byte packet framing (two `u32` lengths).
    ///
    /// Computed from the unused span between write and read positions, minus `8`, saturated at zero.
    pub fn free(&self) -> (len: usize)
        requires
            self.wf(),
        ensures
            len == self@.free(),
            forall|n: int| n > 0 ==> (#[trigger] self@.fits(n) <==> n <= len),
    {
        let unused: usize = self.bytes_unused();
        if unused >= 8 {
            unused - 8
        } else {
            0
        }
    }

    /// Returns `true` if there are no packets stored.
    pub fn empty(&self) -> (empty: bool)
        requires
            self.wf(),
        ensures
            empty <==> self@.packets.len() == 0,
    {
        self.count == 0
    }

    /// Returns how many packets are stored.
    pub fn count(&self) -> (count: usize)
        requires
            self.wf(),
        ensures
            count == self@.packets.len(),
    {
        self.count
    }

    /// Returns the byte index at which the next packet will begin.
    pub fn head(&self) -> (index: usize)
        requires
            self.wf(),
        ensures
            index == self@.head(),
    {
        self.head
    }

    /// Returns the byte index at which the oldest packet begins.
    pub fn tail(&self) -> (index: usize)
        requires
            self.wf(),
        ensures
            index == self@.tail,
    {
        self.tail
    }

    /// Number of bytes in the ring between `head` and `tail` that do not belong to any packet.
    pub fn bytes_unused(&self) -> (unused: usize)
        requires
            self.wf(),
        ensures
            unused == self@.unused(),
    {
        proof {
            framing::lemma_framed_len_lower_bound(self@.packets);
        }
        if self.empty() {
            N
        } else if self.head > self.tail {
            N - (self.head - self.tail)
        } else {
            self.tail - self.head
        }
    }

    /// Appends `data` as the newest packet.
    ///
    /// # Errors
    ///
    /// Returns [`NotEnoughSpaceError`] if fewer than `data.len() + 8` bytes are unused.
    pub fn push(&mut self, data: &[u8]) -> (result: Result<(), NotEnoughSpaceError>)
        requires
            old(self).wf(),
        ensures
            final(self).wf(),
            result is Ok <==> old(self)@.fits(data@.len() as int),
            data@.len() > 0 ==> (result is Ok <==> data@.len() <= old(self)@.free()),
            result is Ok ==> final(self)@ == old(self)@.push(data@),
            result is Ok ==> wrapping::overwritten(
                old(self).bytes(),
                final(self).bytes(),
                old(self)@.head(),
                0,
                framing::frame(data@),
            ),
            result is Err ==> *final(self) == *old(self),
    {
        self._push(data, false)
    }

    /// Appends `data` as the newest packet, dropping the oldest packets until there is room.
    ///
    /// Unlike [`Self::push`], this never fails for lack of space as long as a single packet can fit
    /// in the backing array (`data.len() <= N - 8`).
    ///
    /// # Errors
    ///
    /// Returns [`NotEnoughSpaceError`] only when `data.len() > N - 8` (one frame cannot fit at all).
    pub fn push_force(&mut self, data: &[u8]) -> (result: Result<(), NotEnoughSpaceError>)
        requires
            old(self).wf(),
        ensures
            final(self).wf(),
            result is Ok <==> data@.len() <= N - 8,
            result is Ok ==> final(self)@ == old(self)@.push_force(data@),
            result is Ok ==> wrapping::overwritten(
                old(self).bytes(),
                final(self).bytes(),
                old(self)@.head(),
                0,
                framing::frame(data@),
            ),
            result is Err ==> *final(self) == *old(self),
    {
        self._push(data, true)
    }

    fn _push(&mut self, data: &[u8], force: bool) -> (result: Result<(), NotEnoughSpaceError>)
        requires
            old(self).wf(),
        ensures
            final(self).wf(),
            result is Ok <==> if force {
                data@.len() <= N - 8
            } else {
                old(self)@.fits(data@.len() as int)
            },
            result is Ok ==> final(self)@ == if force {
                old(self)@.push_force(data@)
            } else {
                old(self)@.push(data@)
            },
            result is Ok ==> wrapping::overwritten(
                old(self).bytes(),
                final(self).bytes(),
                old(self)@.head(),
                0,
                framing::frame(data@),
            ),
            result is Err ==> *final(self) == *old(self),
    {
        // data is longer than entire buffer
        if data.len() > N - 8 {
            return Err(NotEnoughSpaceError);
        }

        // need to overwrite old data to fit new data
        if data.len() + 8 > self.bytes_unused() {
            if !force {
                return Err(NotEnoughSpaceError);
            }
            self.make_room(data.len() + 8);
        }

        // write data, then the length on both sides of it
        assert(framing::staged(self.bytes(), self@, Seq::empty())) by {
            let line = wrapping::unrolled(self.bytes(), model::wrap(self@.head() + 4, N as int));
            assert(line.take(0) =~= Seq::empty());
        }
        self.stage(0, data, Ghost(Seq::empty()));
        assert(Seq::<u8>::empty() + data@ =~= data@);
        let field: [u8; 4] = length::to_ne_bytes(data.len() as u32);
        self.seal(data.len(), field, Ghost(data@));
        proof {
            let before = wrapping::unrolled(old(self).buffer@, old(self)@.head());
            let after = wrapping::unrolled(self.buffer@, old(self)@.head());
            assert(after =~= before.take(0) + framing::frame(data@) + before.skip(
                (data@.len() + 8) as int,
            ));
        }
        Ok(())
    }

    /// Begins a multi-part push in normal mode.
    ///
    /// Returns a [`MultipartPush`] guard whose [`MultipartPush::push`] method appends chunks of
    /// payload. When the guard is dropped the completed packet is committed. Call
    /// [`MultipartPush::cancel`] to discard the write.
    ///
    /// # Errors
    ///
    /// Returns [`NotEnoughSpaceError`] if there are fewer than 8 unused bytes (not enough for even
    /// an empty packet).
    pub fn push_multipart(&mut self) -> (result: Result<MultipartPush<'_, N>, NotEnoughSpaceError>)
        requires
            old(self).wf(),
        ensures
            match result {
                Ok(guard) => {
                    &&& old(self)@.fits(0)
                    &&& guard.wf()
                    &&& guard@ == Draft::begin(old(self)@, false)
                    &&& guard.ring() == *old(self)
                    &&& *final(guard.target()) == *final(self)
                },
                Err(_) => !old(self)@.fits(0) && *final(self) == *old(self),
            },
    {
        // Need at least 8 bytes for the header + footer of an empty packet.
        if self.bytes_unused() < 8 {
            return Err(NotEnoughSpaceError);
        }
        Ok(MultipartPush::begin(self, false))
    }

    /// Begins a multi-part push in force mode.
    ///
    /// Like [`Self::push_multipart`] but drops the oldest packets as needed to make room. Dropped
    /// packets are permanently lost even if the write is later cancelled.
    ///
    /// Returns a [`MultipartPush`] guard. Calling [`MultipartPush::push`] will drop further old
    /// packets on demand.
    pub fn push_multipart_force(&mut self) -> (guard: MultipartPush<'_, N>)
        requires
            old(self).wf(),
        ensures
            guard.wf(),
            guard@ == Draft::begin(old(self)@, true),
            guard.ring().bytes() == old(self).bytes(),
            *final(guard.target()) == *final(self),
    {
        // Ensure there are at least 8 bytes free for an empty packet.
        self.make_room(8);
        MultipartPush::begin(self, true)
    }

    /// Drops the oldest packets until at least `need` bytes are unused.
    pub(crate) fn make_room(&mut self, need: usize)
        requires
            old(self).wf(),
            need <= N,
        ensures
            final(self).wf(),
            final(self)@ == old(self)@.make_room(need as int),
            need <= final(self)@.unused(),
            final(self)@.head() == old(self)@.head(),
            final(self).bytes() == old(self).bytes(),
    {
        while need > self.bytes_unused()
            invariant
                self.wf(),
                need <= N,
                self@.make_room(need as int) == old(self)@.make_room(need as int),
                self@.head() == old(self)@.head(),
                self.bytes() == old(self).bytes(),
            decreases self@.packets.len(),
        {
            proof {
                framing::lemma_stored_pop_front(self.buffer@, self@);
            }
            let _ = self.pop_front();
        }
    }

    /// Writes `data` behind the `len` bytes of payload that stand ready for the next packet.
    pub(crate) fn stage(&mut self, len: usize, data: &[u8], Ghost(payload): Ghost<Seq<u8>>)
        requires
            old(self).wf(),
            framing::staged(old(self).bytes(), old(self)@, payload),
            payload.len() == len,
            old(self)@.fits(len + data@.len()),
        ensures
            final(self).wf(),
            final(self)@ == old(self)@,
            framing::staged(final(self).bytes(), final(self)@, payload + data@),
            wrapping::overwritten(
                old(self).bytes(),
                final(self).bytes(),
                old(self)@.head(),
                4 + len,
                data@,
            ),
    {
        let ghost before = self.buffer@;
        let index: usize = wrapping::add_wrapping::<N>(self.head, 4 + len);
        wrapping::write_wrapping(&mut self.buffer, index, data);
        proof {
            let queue = old(self)@;
            let used = queue.used();
            let offset = used + 4 + len;
            framing::lemma_write_at(before, self.buffer@, queue.tail, offset, data@);
            framing::lemma_write_at(before, self.buffer@, queue.head(), 4 + len, data@);
            let old_line = wrapping::unrolled(before, queue.tail);
            let new_line = wrapping::unrolled(self.buffer@, queue.tail);
            assert(new_line.take(used) =~= old_line.take(used));
            framing::lemma_stored_unused_write(before, self.buffer@, queue);
            framing::lemma_read_at(before, queue.tail, used + 4, len as int);
            framing::lemma_read_at(self.buffer@, queue.tail, used + 4, len + data@.len());
            assert(new_line.subrange(used + 4, offset + data@.len()) =~= old_line.subrange(
                used + 4,
                offset,
            ) + data@);
        }
    }

    /// Writes the length fields around the `len` bytes of payload that stand ready for the next
    /// packet, and adds it.
    pub(crate) fn seal(&mut self, len: usize, field: [u8; 4], Ghost(payload): Ghost<Seq<u8>>)
        requires
            old(self).wf(),
            framing::staged(old(self).bytes(), old(self)@, payload),
            payload.len() == len,
            old(self)@.fits(len as int),
            field@ == framing::field(len as nat),
        ensures
            final(self).wf(),
            final(self)@ == old(self)@.push(payload),
            wrapping::overwritten(
                old(self).bytes(),
                final(self).bytes(),
                old(self)@.head(),
                0,
                framing::frame(payload),
            ),
        opens_invariants none
        no_unwind
    {
        let ghost before = self.buffer@;
        let foot: usize = wrapping::add_wrapping::<N>(self.head, 4 + len);
        wrapping::write_length(&mut self.buffer, self.head, field);
        let ghost between = self.buffer@;
        wrapping::write_length(&mut self.buffer, foot, field);
        proof {
            let queue = old(self)@;
            let used = queue.used();
            framing::lemma_read_at(before, queue.tail, used + 4, len as int);
            framing::lemma_write_at(before, between, queue.tail, used, field@);
            framing::lemma_write_at(between, self.buffer@, queue.tail, used + 4 + len, field@);
            let old_line = wrapping::unrolled(before, queue.tail);
            let new_line = wrapping::unrolled(self.buffer@, queue.tail);
            assert(new_line.take(used) =~= old_line.take(used));
            framing::lemma_stored_unused_write(before, self.buffer@, queue);
            assert(new_line.subrange(used, used + 4) =~= field@);
            assert(new_line.subrange(used + 4, used + 4 + len) =~= old_line.subrange(
                used + 4,
                used + 4 + len,
            ));
            assert(new_line.subrange(used + 4 + len, used + 8 + len) =~= field@);
            framing::lemma_stored_push(self.buffer@, queue, payload);
            framing::lemma_write_at(before, between, queue.head(), 0, field@);
            framing::lemma_write_at(between, self.buffer@, queue.head(), 4 + len, field@);
            framing::lemma_read_at(before, queue.head(), 4, len as int);
            let line = wrapping::unrolled(before, queue.head());
            assert(line.subrange(4, 4 + len) == payload);
            assert(wrapping::unrolled(self.buffer@, queue.head()) =~= line.take(0)
                + framing::frame(payload) + line.skip(len + 8));
            framing::lemma_framed_len_lower_bound(queue.push(payload).packets);
        }
        self.head = wrapping::add_wrapping::<N>(self.head, 8 + len);
        self.count = self.count + 1;
        self.packets = Ghost(self.packets@.push(payload));
    }

    /// Removes and returns the oldest packet.
    ///
    /// The payload may be split across the end of the backing array; use [`Packet::copy_into`] or
    /// access [`Packet::a`] and [`Packet::b`] directly. If the payload is contiguous, `b` is empty.
    pub fn pop_front(&mut self) -> (popped: Option<Packet<'_>>)
        requires
            old(self).wf(),
        ensures
            final(self).wf(),
            final(self).bytes() == old(self).bytes(),
            match popped {
                Some(packet) => {
                    &&& old(self)@.packets.len() > 0
                    &&& packet.is_entry(old(self)@, 0)
                    &&& final(self)@ == old(self)@.pop_front()
                },
                None => old(self)@.packets.len() == 0 && *final(self) == *old(self),
            },
    {
        if self.empty() {
            return None;
        }
        let ghost queue = self@;
        let packet = framing::read_oldest(&self.buffer, self.tail, Ghost(queue));
        proof {
            framing::lemma_stored_pop_front(self.buffer@, queue);
        }
        self.tail = wrapping::add_wrapping::<N>(self.tail, packet.len() + 8);
        self.count = self.count - 1;
        self.packets = Ghost(self.packets@.drop_first());
        Some(packet)
    }

    /// Borrows the buffer and yields packets from newest to oldest.
    pub fn iter_backwards<'a>(&'a self) -> (iter: IterBackwards<'a, N>)
        requires
            self.wf(),
        ensures
            iter@ == self@,
    {
        IterBackwards::over(&self.buffer, self.head, self.count, Ghost(self@))
    }

    /// Borrows the buffer and yields packets from oldest to newest.
    pub fn iter<'a>(&'a self) -> (iter: Iter<'a, N>)
        requires
            self.wf(),
        ensures
            iter@ == self@,
    {
        Iter::over(&self.buffer, self.tail, self.count, Ghost(self@))
    }

    /// Returns the `n`-th packet in oldest-to-newest order (`n == 0` is the oldest).
    ///
    /// Same as [`Iterator::nth`] on [`Self::iter`].
    pub fn nth(&self, n: usize) -> (found: Option<Packet<'_>>)
        requires
            self.wf(),
        ensures
            match found {
                Some(packet) => n < self@.packets.len() && packet.is_entry(self@, n as int),
                None => n >= self@.packets.len(),
            },
    {
        let mut iter = self.iter();
        let mut skip: usize = n;
        loop
            invariant
                self.wf(),
                skip <= n,
                iter@.valid(),
                self@.packets.len() == iter@.packets.len() + (n - skip),
                forall|packet: Packet<'_>, i: int|
                    0 <= i < iter@.packets.len() && #[trigger] packet.is_entry(iter@, i)
                        ==> packet.is_entry(self@, i + (n - skip)),
            decreases iter@.packets.len(),
        {
            let ghost queue = iter@;
            match iter.next() {
                None => {
                    return None;
                },
                Some(packet) => {
                    if skip == 0 {
                        return Some(packet);
                    }
                    skip -= 1;
                    proof {
                        framing::lemma_framed_len_drop_first(queue.packets);
                        assert forall|packet: Packet<'_>, i: int|
                            0 <= i < iter@.packets.len() && #[trigger] packet.is_entry(
                                iter@,
                                i,
                            ) implies packet.is_entry(self@, i + (n - skip)) by {
                            framing::lemma_entry_pop_front(queue, i);
                            assert(packet.is_entry(queue, i + 1));
                        }
                    }
                },
            }
        }
    }

    /// Returns the `n`-th packet in newest-to-oldest order (`n == 0` is the newest).
    ///
    /// Same as [`Iterator::nth`] on [`Self::iter_backwards`].
    pub fn nth_reverse(&self, n: usize) -> (found: Option<Packet<'_>>)
        requires
            self.wf(),
        ensures
            match found {
                Some(packet) => {
                    &&& n < self@.packets.len()
                    &&& packet.is_entry(self@, self@.packets.len() - 1 - n)
                },
                None => n >= self@.packets.len(),
            },
    {
        let mut iter = self.iter_backwards();
        let mut skip: usize = n;
        loop
            invariant
                self.wf(),
                skip <= n,
                self@.packets.len() == iter@.packets.len() + (n - skip),
                forall|packet: Packet<'_>, i: int|
                    0 <= i < iter@.packets.len() && #[trigger] packet.is_entry(iter@, i)
                        ==> packet.is_entry(self@, i),
            decreases iter@.packets.len(),
        {
            let ghost queue = iter@;
            match iter.next() {
                None => {
                    return None;
                },
                Some(packet) => {
                    if skip == 0 {
                        return Some(packet);
                    }
                    skip -= 1;
                    proof {
                        assert forall|packet: Packet<'_>, i: int|
                            0 <= i < iter@.packets.len() && #[trigger] packet.is_entry(
                                iter@,
                                i,
                            ) implies packet.is_entry(self@, i) by {
                            framing::lemma_entry_pop_back(queue, i);
                            assert(packet.is_entry(queue, i));
                        }
                    }
                },
            }
        }
    }

    /// Returns the `n`-th packet in oldest-to-newest order as a single contiguous slice.
    ///
    /// If the payload already lies in one contiguous range of the backing array, returns that
    /// subslice. If it wraps around the end of the ring, rotates the array in place so the payload is
    /// contiguous at the front, adjusts internal indices, and returns a prefix of the array.
    ///
    /// `n == 0` is the oldest packet. Returns [`None`] if the buffer is empty or if `n >= count()`.
    pub fn nth_contiguous(&mut self, n: usize) -> (found: Option<&[u8]>)
        requires
            old(self).wf(),
        ensures
            final(self).wf(),
            match found {
                Some(payload) => {
                    &&& n < old(self)@.packets.len()
                    &&& payload@ == old(self)@.packets[n as int]
                    &&& final(self)@ == old(self)@.make_contiguous(n as int)
                    &&& final(self).bytes() == if old(self)@.contiguous(n as int) {
                        old(self).bytes()
                    } else {
                        wrapping::unrolled(old(self).bytes(), old(self)@.data_pos(n as int))
                    }
                },
                None => n >= old(self)@.packets.len() && *final(self) == *old(self),
            },
    {
        if self.empty() || n >= self.count {
            return None;
        }
        let ghost queue = self@;

        // walk through the buffer until we find this one
        let mut tail: usize = self.tail;
        let mut i: usize = 0;
        proof {
            assert(queue.packets.take(0) =~= Seq::empty());
            framing::lemma_entry(self.buffer@, queue, 0);
        }
        let mut len_data: usize = framing::read_length(&self.buffer, tail);
        proof {
            framing::lemma_field_injective(len_data as nat, queue.packets[0].len());
        }
        while i < n
            invariant
                *self == *old(self),
                self.wf(),
                queue == self@,
                i <= n < queue.packets.len(),
                tail == model::wrap(
                    queue.tail + model::framed_len(queue.packets.take(i as int)),
                    N as int,
                ),
                len_data == queue.packets[i as int].len(),
            decreases n - i,
        {
            proof {
                framing::lemma_entry(self.buffer@, queue, i as int);
                framing::lemma_entry(self.buffer@, queue, i + 1);
            }
            tail = wrapping::add_wrapping::<N>(tail, len_data + 8);
            i += 1;
            len_data = framing::read_length(&self.buffer, tail);
            proof {
                framing::lemma_field_injective(len_data as nat, queue.packets[i as int].len());
            }
        }
        proof {
            framing::lemma_entry(self.buffer@, queue, n as int);
        }
        let index_data: usize = wrapping::add_wrapping::<N>(tail, 4);

        // happy path, no rotate necessary
        if len_data <= N - index_data {
            let payload = &self.buffer[index_data..index_data + len_data];
            assert(payload@ =~= wrapping::unrolled(self.buffer@, index_data as int).take(
                len_data as int,
            ));
            return Some(payload);
        }

        // otherwise rotate
        proof {
            framing::lemma_stored_rotate(self.buffer@, queue, index_data as int);
        }
        wrapping::rotate_left(&mut self.buffer, index_data);
        self.tail = wrapping::sub_wrapping::<N>(self.tail, index_data);
        self.head = wrapping::sub_wrapping::<N>(self.head, index_data);
        let payload = &self.buffer[0..len_data];
        assert(payload@ =~= queue.packets[n as int]);
        Some(payload)
    }
}

impl<const N: usize> Default for BytearrayRingbuffer<N> {
    /// Creates an empty ring buffer, as [`BytearrayRingbuffer::new`] does, where `N > 8` and
    /// `N < u32::MAX`. No method may be called on a buffer of any other size.
    fn default() -> (ring: Self)
        ensures
            8 < N < u32::MAX ==> ring.wf(),
            ring@ == Queue::empty(N as int),
            ring.bytes() == Seq::new(N as nat, |i: int| 0u8),
    {
        BytearrayRingbuffer {
            buffer: [0; N],
            head: 0,
            tail: 0,
            count: 0,
            packets: Ghost(Seq::empty()),
        }
    }
}

} // verus!
