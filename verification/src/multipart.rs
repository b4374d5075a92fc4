//! Packets that are written in several pieces.

#[allow(unused_imports)]
use crate::framing;
use crate::length;
#[allow(unused_imports)]
use crate::model;
use crate::model::Draft;
#[allow(unused_imports)]
use crate::model::Queue;
use crate::ring::{BytearrayRingbuffer, NotEnoughSpaceError};
#[allow(unused_imports)]
use crate::wrapping;
use vstd::prelude::*;

verus! {

/// A packet that is being written behind the newest one of `buf`.
struct Pending<'a, const N: usize> {
    buf: &'a mut BytearrayRingbuffer<N>,
    /// Payload bytes written so far.
    len: usize,
    /// The length field for `len`.
    field: [u8; 4],
    /// Whether to drop old packets when space is tight.
    force: bool,
    /// The payload written so far.
    payload: Ghost<Seq<u8>>,
}

impl<'a, const N: usize> Pending<'a, N> {
    /// What the buffer holds and what has been written.
    spec fn draft(&self) -> Draft {
        Draft { queue: self.buf@, payload: self.payload@, force: self.force }
    }

    /// The buffer that the packet is written to.
    spec fn target(&self) -> &'a mut BytearrayRingbuffer<N> {
        self.buf
    }

    /// The state of that buffer while the packet is being written.
    spec fn ring(&self) -> BytearrayRingbuffer<N> {
        *self.buf
    }

    /// The payload written so far stands in the buffer, and the packet has room there.
    spec fn wf(&self) -> bool {
        &&& self.buf.wf()
        &&& self.draft().valid()
        &&& self.len == self.payload@.len()
        &&& self.field@ == framing::field(self.len as nat)
        &&& framing::staged(self.buf.bytes(), self.buf@, self.payload@)
    }

    /// Appends `data` to the payload.
    fn push(&mut self, data: &[u8]) -> (result: Result<(), NotEnoughSpaceError>)
        requires
            old(self).wf(),
        ensures
            final(self).wf(),
            *final(final(self).target()) == *final(old(self).target()),
            result is Ok <==> old(self).draft().accepts(data@.len() as int),
            result is Ok ==> final(self).draft() == old(self).draft().push(data@),
            result is Ok ==> wrapping::overwritten(
                old(self).ring().bytes(),
                final(self).ring().bytes(),
                old(self).draft().queue.head(),
                (4 + old(self).draft().payload.len()) as int,
                data@,
            ),
            result is Err ==> *final(self) == *old(self),
    {
        // Absolute ceiling: a single packet can never hold more than N-8 bytes.
        if data.len() > N - 8 - self.len {
            return Err(NotEnoughSpaceError);
        }

        // Need room for header + payload + footer.
        let len: usize = self.len + data.len();
        let needed: usize = len + 8;
        if self.force {
            self.buf.make_room(needed);
        } else if self.buf.bytes_unused() < needed {
            return Err(NotEnoughSpaceError);
        }
        self.buf.stage(self.len, data, self.payload);
        self.len = len;
        self.field = length::to_ne_bytes(len as u32);
        self.payload = Ghost(self.payload@ + data@);
        Ok(())
    }

    /// Adds the completed packet to the buffer.
    fn commit(self)
        requires
            self.wf(),
        ensures
            final(self.target()).wf(),
            final(self.target())@ == self.draft().commit(),
            wrapping::overwritten(
                self.ring().bytes(),
                final(self.target()).bytes(),
                self.draft().queue.head(),
                0,
                framing::frame(self.draft().payload),
            ),
        opens_invariants none
        no_unwind
    {
        self.buf.seal(self.len, self.field, self.payload);
    }

    /// Gives the buffer back as it is. Its `head` only moves when a packet is committed.
    fn cancel(self)
        ensures
            *final(self.target()) == self.ring(),
    {
    }
}

/// Guard returned by [`BytearrayRingbuffer::push_multipart`] and
/// [`BytearrayRingbuffer::push_multipart_force`].
///
/// Accumulates payload bytes written via repeated [`Self::push`] calls. When dropped, the
/// completed packet (header + payload + footer) is committed to the ring buffer. Call
/// [`Self::cancel`] to discard the in-progress write without committing a packet.
///
/// In force mode any existing packets that were displaced to make room are permanently lost, even
/// if the write is cancelled.
pub struct MultipartPush<'a, const N: usize> {
    /// The packet being written; `None` once it has been committed or cancelled.
    pending: Option<Pending<'a, N>>,
}

impl<'a, const N: usize> View for MultipartPush<'a, N> {
    type V = Draft;

    /// What the buffer holds and what has been written.
    closed spec fn view(&self) -> Draft {
        self.pending->0.draft()
    }
}

impl<'a, const N: usize> MultipartPush<'a, N> {
    #[verifier::type_invariant]
    spec fn inv(self) -> bool {
        self.pending matches Some(pending) ==> pending.wf()
    }

    /// The buffer that the packet is written to.
    pub closed spec fn target(&self) -> &'a mut BytearrayRingbuffer<N> {
        self.pending->0.buf
    }

    /// The state of that buffer while the packet is being written.
    pub closed spec fn ring(&self) -> BytearrayRingbuffer<N> {
        self.pending->0.ring()
    }

    /// The packet is still being written, and has room in the buffer.
    pub closed spec fn wf(&self) -> bool {
        self.pending matches Some(pending) && pending.wf()
    }

    /// While a packet is being written, the buffer is intact and has room for it.
    pub proof fn law_guard_is_valid(&self)
        requires
            self.wf(),
        ensures
            self@.valid(),
            self@.queue.capacity == N,
            self.ring().wf(),
            self.ring()@ == self@.queue,
    {
    }

    /// Begins a packet behind the newest one of `buf`.
    pub(crate) fn begin(buf: &'a mut BytearrayRingbuffer<N>, force: bool) -> (guard: Self)
        requires
            old(buf).wf(),
            old(buf)@.fits(0),
        ensures
            guard.wf(),
            guard.ring() == *old(buf),
            *final(guard.target()) == *final(buf),
            guard@ == (Draft { queue: old(buf)@, payload: Seq::empty(), force }),
    {
        assert(framing::staged(buf.bytes(), buf@, Seq::empty())) by {
            let line = wrapping::unrolled(buf.bytes(), model::wrap(buf@.head() + 4, N as int));
            assert(line.take(0) =~= Seq::empty());
        }
        let field: [u8; 4] = length::to_ne_bytes(0);
        MultipartPush {
            pending: Some(Pending { buf, len: 0, field, force, payload: Ghost(Seq::empty()) }),
        }
    }

    /// Appends `data` to the packet currently being written.
    ///
    /// May be called multiple times. The chunks are concatenated in order.
    ///
    /// In normal mode returns [`NotEnoughSpaceError`] when there is not enough space in the buffer
    /// to fit `data` plus the 4-byte footer. In force mode it drops the oldest packets until there
    /// is room.
    ///
    /// # Errors
    ///
    /// Returns [`NotEnoughSpaceError`] if:
    /// - The total accumulated payload would exceed `N - 8` (the maximum for any single packet).
    /// - In normal mode: there is not enough unused space.
    pub fn push(&mut self, data: &[u8]) -> (result: Result<(), NotEnoughSpaceError>)
        requires
            old(self).wf(),
        ensures
            final(self).wf(),
            *final(final(self).target()) == *final(old(self).target()),
            result is Ok <==> old(self)@.accepts(data@.len() as int),
            result is Ok ==> final(self)@ == old(self)@.push(data@),
            result is Ok ==> wrapping::overwritten(
                old(self).ring().bytes(),
                final(self).ring().bytes(),
                old(self)@.queue.head(),
                (4 + old(self)@.payload.len()) as int,
                data@,
            ),
            result is Err ==> final(self)@ == old(self)@ && final(self).ring() == old(self).ring(),
    {
        let mut pending: Option<Pending<'a, N>> = None;
        core::mem::swap(&mut pending, &mut self.pending);
        let mut pending = pending.unwrap();
        let result = pending.push(data);
        self.pending = Some(pending);
        result
    }

    /// Adds the completed packet to the ring buffer, as dropping the guard does.
    pub fn commit(self)
        requires
            self.wf(),
        ensures
            final(self.target()).wf(),
            final(self.target())@ == self@.commit(),
            wrapping::overwritten(
                self.ring().bytes(),
                final(self.target()).bytes(),
                self@.queue.head(),
                0,
                framing::frame(self@.payload),
            ),
    {
        let mut guard = self;
        let mut pending: Option<Pending<'a, N>> = None;
        core::mem::swap(&mut pending, &mut guard.pending);
        pending.unwrap().commit();
    }

    /// Discards the in-progress packet without committing it to the ring buffer.
    ///
    /// Leaves `head` at the position it had before [`BytearrayRingbuffer::push_multipart`] was
    /// called. Any packets that were already dropped in force mode are permanently lost.
    pub fn cancel(self)
        requires
            self.wf(),
        ensures
            *final(self.target()) == self.ring(),
            final(self.target()).wf(),
            final(self.target())@ == self@.queue,
    {
        let mut guard = self;
        let mut pending: Option<Pending<'a, N>> = None;
        core::mem::swap(&mut pending, &mut guard.pending);
        pending.unwrap().cancel();
    }
}

impl<'a, const N: usize> Drop for MultipartPush<'a, N> {
    /// Adds the completed packet to the ring buffer, unless it has been committed or cancelled.
    fn drop(&mut self)
        ensures
            old(self).wf() ==> {
                &&& final(old(self).target()).wf()
                &&& final(old(self).target())@ == old(self)@.commit()
                &&& wrapping::overwritten(
                    old(self).ring().bytes(),
                    final(old(self).target()).bytes(),
                    old(self)@.queue.head(),
                    0,
                    framing::frame(old(self)@.payload),
                )
            },
        opens_invariants none
        no_unwind
    {
        proof {
            use_type_invariant(&*self);
        }
        let mut pending: Option<Pending<'a, N>> = None;
        core::mem::swap(&mut pending, &mut self.pending);
        match pending {
            Some(pending) => pending.commit(),
            None => {},
        }
    }
}

} // verus!
