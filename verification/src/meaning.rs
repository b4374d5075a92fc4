//! What the vocabulary of the contracts comes to, in terms of slices, vectors, fields of ranges and
//! plain arithmetic.
//!
//! The contracts are stated over the model and over the ranges and collections that a packet is
//! copied by. The laws here take each of those apart, down to what a caller holds in hand.

#[allow(unused_imports)]
use crate::framing;
#[allow(unused_imports)]
use crate::iter::{Iter, IterBackwards};
#[allow(unused_imports)]
use crate::length;
#[allow(unused_imports)]
use crate::model;
#[allow(unused_imports)]
use crate::model::{Draft, Queue};
#[allow(unused_imports)]
use crate::packet::{ExtendBytes, Packet};
#[allow(unused_imports)]
use crate::range;
#[allow(unused_imports)]
use crate::range::{ByteRange, Position};
#[allow(unused_imports)]
use crate::wrapping;
#[allow(unused_imports)]
use core::ops::{Bound, Range, RangeFrom, RangeFull, RangeInclusive, RangeTo, RangeToInclusive};
#[allow(unused_imports)]
use std::collections::VecDeque;
#[allow(unused_imports)]
use vstd::endian::Endian;
use vstd::prelude::*;

verus! {

// ---- packets and what they are copied to ----
/// The payload of a packet is its slice `a` followed by its slice `b`, and its length is the sum
/// of theirs.
pub proof fn law_payload_is_a_then_b(p: Packet<'_>)
    ensures
        p@ == p.a@ + p.b@,
        p@.len() == p.a@.len() + p.b@.len(),
        p.wf() <==> p.a@.len() + p.b@.len() <= usize::MAX,
{
}

/// A vector extended by a packet holds what it held, then the bytes of `a`, then those of `b`: any
/// outcome that [`Packet::extend_into`] allows is that one.
pub proof fn law_extend_into_vec(p: Packet<'_>, before: Vec<u8>, after: Vec<u8>)
    requires
        after.contents() == before.contents() + p@,
    ensures
        after@ == before@ + p.a@ + p.b@,
{
    assert(before@ + (p.a@ + p.b@) =~= before@ + p.a@ + p.b@);
}

/// A deque extended by a packet holds what it held, then the bytes of `a`, then those of `b`: any
/// outcome that [`Packet::extend_into`] allows is that one.
pub proof fn law_extend_into_deque(p: Packet<'_>, before: VecDeque<u8>, after: VecDeque<u8>)
    requires
        after.contents() == before.contents() + p@,
    ensures
        after@ == before@ + p.a@ + p.b@,
{
    assert(before@ + (p.a@ + p.b@) =~= before@ + p.a@ + p.b@);
}

/// What a vector or a deque holds, for the purpose of extending it, is its elements in order.
pub proof fn law_contents_are_elements(v: Vec<u8>, d: VecDeque<u8>)
    ensures
        v.contents() == v@,
        d.contents() == d@,
{
}

// ---- ranges ----
/// Copying `start..end` of a payload yields its bytes from `start` up to, not including, `end`:
/// what has to lie within the payload, and what the buffer has to have the length of, are `start`
/// and `end` themselves, and any outcome that [`Packet::copy_part_into`] allows is that one.
pub proof fn law_copy_range(p: Packet<'_>, r: Range<usize>, out: Seq<u8>)
    ensures
        r.definite(),
        range::start_of(r.limits().0) == r.start,
        range::end_of(r.limits().1, p@.len() as int) == r.end,
        out == p@.subrange(
            range::start_of(r.limits().0),
            range::end_of(r.limits().1, p@.len() as int),
        ) ==> out == (p.a@ + p.b@).subrange(r.start as int, r.end as int),
{
}

/// Copying `start..end` by references copies what copying it by value copies.
pub proof fn law_copy_range_by_reference(p: Packet<'_>, r: Range<&usize>, out: Seq<u8>)
    ensures
        r.definite(),
        range::start_of(r.limits().0) == *r.start,
        range::end_of(r.limits().1, p@.len() as int) == *r.end,
        out == p@.subrange(
            range::start_of(r.limits().0),
            range::end_of(r.limits().1, p@.len() as int),
        ) ==> out == (p.a@ + p.b@).subrange(*r.start as int, *r.end as int),
{
}

/// Copying `start..=end` of a payload yields its bytes from `start` up to and including `end`.
pub proof fn law_copy_range_inclusive(p: Packet<'_>, r: RangeInclusive<usize>, out: Seq<u8>)
    ensures
        r.definite() <==> !r@.exhausted,
        range::start_of(r.limits().0) == r@.start,
        range::end_of(r.limits().1, p@.len() as int) == r@.end + 1,
        out == p@.subrange(
            range::start_of(r.limits().0),
            range::end_of(r.limits().1, p@.len() as int),
        ) ==> out == (p.a@ + p.b@).subrange(r@.start as int, r@.end + 1),
{
}

/// Copying `start..=end` by references copies what copying it by value copies.
pub proof fn law_copy_range_inclusive_by_reference(
    p: Packet<'_>,
    r: RangeInclusive<&usize>,
    out: Seq<u8>,
)
    ensures
        r.definite() <==> !r@.exhausted,
        range::start_of(r.limits().0) == *r@.start,
        range::end_of(r.limits().1, p@.len() as int) == *r@.end + 1,
        out == p@.subrange(
            range::start_of(r.limits().0),
            range::end_of(r.limits().1, p@.len() as int),
        ) ==> out == (p.a@ + p.b@).subrange(*r@.start as int, *r@.end + 1),
{
}

/// Copying `start..` of a payload yields its bytes from `start` to the end.
pub proof fn law_copy_range_from(
    p: Packet<'_>,
    r: RangeFrom<usize>,
    q: RangeFrom<&usize>,
    out: Seq<u8>,
)
    requires
        *q.start == r.start,
    ensures
        r.definite() && q.definite(),
        q.limits() == r.limits(),
        range::start_of(r.limits().0) == r.start,
        range::end_of(r.limits().1, p@.len() as int) == p.a@.len() + p.b@.len(),
        out == p@.subrange(
            range::start_of(r.limits().0),
            range::end_of(r.limits().1, p@.len() as int),
        ) ==> out == (p.a@ + p.b@).skip(r.start as int),
{
}

/// Copying `..end` of a payload yields its first `end` bytes.
pub proof fn law_copy_range_to(
    p: Packet<'_>,
    r: RangeTo<usize>,
    q: RangeTo<&usize>,
    out: Seq<u8>,
)
    requires
        *q.end == r.end,
    ensures
        r.definite() && q.definite(),
        q.limits() == r.limits(),
        range::start_of(r.limits().0) == 0,
        range::end_of(r.limits().1, p@.len() as int) == r.end,
        out == p@.subrange(
            range::start_of(r.limits().0),
            range::end_of(r.limits().1, p@.len() as int),
        ) ==> out == (p.a@ + p.b@).take(r.end as int),
{
}

/// Copying `..=end` of a payload yields its first `end + 1` bytes.
pub proof fn law_copy_range_to_inclusive(
    p: Packet<'_>,
    r: RangeToInclusive<usize>,
    q: RangeToInclusive<&usize>,
    out: Seq<u8>,
)
    requires
        *q.end == r.end,
    ensures
        r.definite() && q.definite(),
        q.limits() == r.limits(),
        range::start_of(r.limits().0) == 0,
        range::end_of(r.limits().1, p@.len() as int) == r.end + 1,
        out == p@.subrange(
            range::start_of(r.limits().0),
            range::end_of(r.limits().1, p@.len() as int),
        ) ==> out == (p.a@ + p.b@).take(r.end + 1),
{
}

/// Copying `..` of a payload yields all of it.
pub proof fn law_copy_range_full(p: Packet<'_>, r: RangeFull, out: Seq<u8>)
    ensures
        r.definite(),
        range::start_of(r.limits().0) == 0,
        range::end_of(r.limits().1, p@.len() as int) == p.a@.len() + p.b@.len(),
        out == p@.subrange(
            range::start_of(r.limits().0),
            range::end_of(r.limits().1, p@.len() as int),
        ) ==> out == p.a@ + p.b@,
{
    assert(p@.subrange(0, p@.len() as int) =~= p@);
}

/// Copying by a pair of bounds yields the bytes between them: an included lower bound is the first
/// position, an excluded one the position before it; an excluded upper bound is the position behind
/// the last, an included one the last; and an unbounded end reaches to the end of the payload. A
/// pair of bounds by reference means what the pair by value means.
pub proof fn law_copy_bounds(p: Packet<'_>, s: usize, e: usize)
    ensures
        ({
            let pair = (Bound::Included(s), Bound::Excluded(e));
            let limits = pair.limits();
            &&& pair.definite()
            &&& range::start_of(limits.0) == s
            &&& range::end_of(limits.1, p@.len() as int) == e
        }),
        ({
            let pair = (Bound::Excluded(s), Bound::Included(e));
            let limits = pair.limits();
            &&& pair.definite()
            &&& range::start_of(limits.0) == s + 1
            &&& range::end_of(limits.1, p@.len() as int) == e + 1
        }),
        ({
            let pair = (Bound::<usize>::Unbounded, Bound::<usize>::Unbounded);
            let limits = pair.limits();
            &&& pair.definite()
            &&& range::start_of(limits.0) == 0
            &&& range::end_of(limits.1, p@.len() as int) == p.a@.len() + p.b@.len()
        }),
        ({
            let pair = (Bound::Included(&s), Bound::Excluded(&e));
            pair.definite() && pair.limits() == (Bound::Included(s), Bound::Excluded(e))
        }),
        ({
            let pair = (Bound::Excluded(&s), Bound::Included(&e));
            pair.definite() && pair.limits() == (Bound::Excluded(s), Bound::Included(e))
        }),
        ({
            let pair = (Bound::<&usize>::Unbounded, Bound::<&usize>::Unbounded);
            &&& pair.definite()
            &&& pair.limits() == (Bound::<usize>::Unbounded, Bound::<usize>::Unbounded)
        }),
{
}

/// The two bounds of a pair mean what they mean whatever the other one is.
pub proof fn law_bounds_are_independent(
    lower: Bound<usize>,
    upper: Bound<usize>,
    by_ref: (Bound<&usize>, Bound<&usize>),
)
    ensures
        (lower, upper).definite(),
        (lower, upper).limits() == (lower, upper),
        by_ref.definite(),
        by_ref.limits().0 == (match by_ref.0 {
            Bound::Included(at) => Bound::Included(*at),
            Bound::Excluded(at) => Bound::Excluded(*at),
            Bound::Unbounded => Bound::Unbounded,
        }),
        by_ref.limits().1 == (match by_ref.1 {
            Bound::Included(at) => Bound::Included(*at),
            Bound::Excluded(at) => Bound::Excluded(*at),
            Bound::Unbounded => Bound::Unbounded,
        }),
{
}

/// A position and a reference to it are the same position.
pub proof fn law_positions(at: usize)
    ensures
        at.position() == at,
        (&at).position() == at,
{
}

// ---- the ring ----
/// An index that runs past the end of a ring at most once is taken modulo its size.
pub proof fn law_wrap_is_modulo(i: int, n: int)
    requires
        0 <= i < 2 * n,
    ensures
        model::wrap(i, n) == i % n,
{
    if i < n {
        vstd::arithmetic::div_mod::lemma_small_mod(i as nat, n as nat);
    } else {
        vstd::arithmetic::div_mod::lemma_small_mod((i - n) as nat, n as nat);
        vstd::arithmetic::div_mod::lemma_mod_sub_multiples_vanish(i, n);
    }
}

/// A ring read from `start` on has at `k` the byte that stands `k` bytes after `start`, modulo the
/// size of the ring.
pub proof fn law_unrolled_is_modulo(ring: Seq<u8>, start: int, k: int)
    requires
        0 <= start < ring.len(),
        0 <= k < ring.len(),
    ensures
        wrapping::unrolled(ring, start).len() == ring.len(),
        wrapping::unrolled(ring, start)[k] == ring[(start + k) % (ring.len() as int)],
{
    law_wrap_is_modulo(start + k, ring.len() as int);
}

/// A write changes the bytes at `start + offset`, `start + offset + 1`, ... modulo the size of the
/// ring to those of `data`, and no other byte.
pub proof fn law_overwritten_is_modulo(
    before: Seq<u8>,
    after: Seq<u8>,
    start: int,
    offset: int,
    data: Seq<u8>,
    k: int,
)
    requires
        0 <= start < before.len(),
        0 <= offset,
        offset + data.len() <= before.len(),
        0 <= k < before.len(),
        wrapping::overwritten(before, after, start, offset, data),
    ensures
        after.len() == before.len(),
        after[(start + k) % (before.len() as int)] == if offset <= k < offset + data.len() {
            data[k - offset]
        } else {
            before[(start + k) % (before.len() as int)]
        },
{
    law_unrolled_is_modulo(before, start, k);
    law_unrolled_is_modulo(after, start, k);
}

/// The four bytes of a length field are digits to the base 256, the least significant first or
/// last as the machine has it.
pub proof fn law_length_field(len: u32)
    ensures
        length::native_endian(len).len() == 4,
        ({
            let f = length::native_endian(len);
            match vstd::endian::endianness() {
                Endian::Little => f[0] + 256 * f[1] + 65536 * f[2] + 16777216 * f[3] == len,
                Endian::Big => f[3] + 256 * f[2] + 65536 * f[1] + 16777216 * f[0] == len,
            }
        }),
{
    let one = len / 256;
    let two = len / 65536;
    let three = len / 16777216;
    assert(two == one / 256 && three == two / 256);
    assert(len == len % 256 + 256 * one);
    assert(one == one % 256 + 256 * two);
    assert(two == two % 256 + 256 * three);
    let f = length::little_endian(len);
    assert(f[0] == len % 256 && f[1] == one % 256 && f[2] == two % 256 && f[3] == three);
    let g = length::big_endian(len);
    assert(g[3] == len % 256 && g[2] == one % 256 && g[1] == two % 256 && g[0] == three);
}

/// The frame of a payload is its length field, the payload and the length field again, and eight
/// bytes longer than the payload.
pub proof fn law_frame(payload: Seq<u8>)
    requires
        payload.len() <= u32::MAX,
    ensures
        framing::field(payload.len()) == length::native_endian(payload.len() as u32),
        framing::frame(payload).len() == payload.len() + 8,
        framing::frame(payload).take(4) == length::native_endian(payload.len() as u32),
        framing::frame(payload).subrange(4, 4 + payload.len() as int) == payload,
        framing::frame(payload).skip(4 + payload.len() as int) == length::native_endian(
            payload.len() as u32,
        ),
{
    let f = length::native_endian(payload.len() as u32);
    assert(framing::frame(payload).take(4) =~= f);
    assert(framing::frame(payload).subrange(4, 4 + payload.len() as int) =~= payload);
    assert(framing::frame(payload).skip(4 + payload.len() as int) =~= f);
}

/// In a ring that holds a queue, the frames of the packets stand one behind the other from `tail`
/// on: byte `k` of the frame of packet `i` is found behind the frames of the packets before it,
/// modulo the size of the ring.
pub proof fn law_stored_frames(ring: Seq<u8>, queue: Queue, i: int, k: int)
    requires
        framing::stored(ring, queue),
        0 <= i < queue.packets.len(),
        0 <= k < queue.packets[i].len() + 8,
    ensures
        ring.len() == queue.capacity,
        ring[(queue.tail + model::framed_len(queue.packets.take(i)) + k) % queue.capacity]
            == framing::frame(queue.packets[i])[k],
{
    let line = wrapping::unrolled(ring, queue.tail);
    let payload = queue.packets[i];
    let len = payload.len() as int;
    let offset = model::framed_len(queue.packets.take(i)) as int;
    framing::lemma_offset(queue.packets, i);
    assert(framing::frame_at(line, offset, payload));
    law_unrolled_is_modulo(ring, queue.tail, offset + k);
    law_frame(payload);
    if k < 4 {
        assert(line.subrange(offset, offset + 4)[k] == line[offset + k]);
    } else if k < 4 + len {
        assert(line.subrange(offset + 4, offset + 4 + len)[k - 4] == line[offset + k]);
    } else {
        assert(line.subrange(offset + 4 + len, offset + 8 + len)[k - 4 - len] == line[offset + k]);
    }
}

// ---- the queue ----
/// No packets take up no bytes, and each one more takes up its payload and eight bytes, wherever
/// it is added.
pub proof fn law_framed_len(packets: Seq<Seq<u8>>, data: Seq<u8>)
    ensures
        model::framed_len(Seq::empty()) == 0,
        model::framed_len(packets.push(data)) == model::framed_len(packets) + data.len() + 8,
        model::framed_len(seq![data] + packets) == model::framed_len(packets) + data.len() + 8,
{
    framing::lemma_framed_len_push(packets, data);
    framing::lemma_framed_len_concat(seq![data], packets);
    assert(seq![data] =~= Seq::<Seq<u8>>::empty().push(data));
    framing::lemma_framed_len_push(Seq::empty(), data);
}

/// The numbers that describe a queue: what is used is what its packets take up, what is unused is
/// the rest of the ring, a packet fits when its payload and eight bytes are unused, and the next
/// packet begins where the used bytes end, modulo the size of the ring.
pub proof fn law_queue_numbers(queue: Queue, len: int)
    ensures
        queue.valid() <==> {
            &&& 8 < queue.capacity < u32::MAX
            &&& 0 <= queue.tail < queue.capacity
            &&& model::framed_len(queue.packets) <= queue.capacity
        },
        queue.used() == model::framed_len(queue.packets),
        queue.unused() == queue.capacity - model::framed_len(queue.packets),
        queue.fits(len) <==> model::framed_len(queue.packets) + len + 8 <= queue.capacity,
        queue.valid() ==> queue.head() == (queue.tail + model::framed_len(queue.packets))
            % queue.capacity,
{
    if queue.valid() {
        law_wrap_is_modulo(queue.tail + queue.used(), queue.capacity);
    }
}

/// A new queue holds nothing and begins at index zero.
pub proof fn law_empty_queue(capacity: int)
    ensures
        Queue::empty(capacity).packets.len() == 0,
        Queue::empty(capacity).tail == 0,
        Queue::empty(capacity).capacity == capacity,
{
}

/// A push adds one packet behind the others and leaves everything else.
pub proof fn law_push(queue: Queue, data: Seq<u8>)
    ensures
        queue.push(data).packets.len() == queue.packets.len() + 1,
        queue.push(data).packets[queue.packets.len() as int] == data,
        forall|i: int|
            0 <= i < queue.packets.len() ==> #[trigger] queue.push(data).packets[i]
                == queue.packets[i],
        queue.push(data).tail == queue.tail,
        queue.push(data).capacity == queue.capacity,
{
}

/// Popping removes the packet before all others, and the queue then begins behind its frame.
pub proof fn law_pop_front(queue: Queue)
    requires
        queue.valid(),
        queue.packets.len() > 0,
    ensures
        seq![queue.packets[0]] + queue.pop_front().packets == queue.packets,
        queue.pop_front().tail == (queue.tail + queue.packets[0].len() + 8) % queue.capacity,
        queue.pop_front().capacity == queue.capacity,
{
    assert(seq![queue.packets[0]] + queue.pop_front().packets =~= queue.packets);
    framing::lemma_framed_len_drop_first(queue.packets);
    law_wrap_is_modulo(queue.tail + queue.packets[0].len() + 8, queue.capacity);
}

/// Removing the newest packet removes the one behind all others and leaves everything else.
pub proof fn law_pop_back(queue: Queue)
    requires
        queue.packets.len() > 0,
    ensures
        queue.pop_back().packets.push(queue.packets[queue.packets.len() - 1]) == queue.packets,
        queue.pop_back().tail == queue.tail,
        queue.pop_back().capacity == queue.capacity,
{
    assert(queue.pop_back().packets.push(queue.packets[queue.packets.len() - 1])
        =~= queue.packets);
}

/// Making room keeps the newest packets and drops the least number of the oldest for which `need`
/// bytes are unused; the queue then begins behind the frames of those dropped.
pub proof fn law_make_room_is_least(queue: Queue, need: int)
    requires
        queue.valid(),
        need <= queue.capacity,
    ensures
        ({
            let roomy = queue.make_room(need);
            let n = queue.packets.len() - roomy.packets.len();
            &&& 0 <= n <= queue.packets.len()
            &&& roomy.packets == queue.packets.skip(n)
            &&& need <= queue.capacity - model::framed_len(queue.packets.skip(n))
            &&& forall|fewer: int|
                0 <= fewer < n ==> queue.capacity - #[trigger] model::framed_len(
                    queue.packets.skip(fewer),
                ) < need
            &&& roomy.tail == (queue.tail + model::framed_len(queue.packets.take(n)))
                % queue.capacity
            &&& roomy.capacity == queue.capacity
        }),
    decreases queue.packets.len(),
{
    crate::laws::law_make_room(queue, need);
    let n = queue.packets.len() - queue.make_room(need).packets.len();
    if need <= queue.unused() || queue.packets.len() == 0 {
        assert(queue.packets.take(0) =~= Seq::empty());
        law_wrap_is_modulo(queue.tail, queue.capacity);
    } else {
        let rest = queue.pop_front();
        crate::laws::law_pop_front_frees(queue);
        law_make_room_is_least(rest, need);
        let gone = queue.packets[0].len() + 8;
        let more = model::framed_len(rest.packets.take(n - 1));
        framing::lemma_offset_drop_first(queue.packets, n - 1);
        assert(rest.packets =~= rest.packets.take(n - 1) + rest.packets.skip(n - 1));
        framing::lemma_framed_len_concat(rest.packets.take(n - 1), rest.packets.skip(n - 1));
        law_wrap_is_modulo(rest.tail + more, queue.capacity);
        law_wrap_is_modulo(queue.tail + gone + more, queue.capacity);
    }
}

/// A forced push keeps the newest packets, drops the least number of the oldest for which the new
/// packet fits, and adds it behind the others.
pub proof fn law_push_force_is_least(queue: Queue, data: Seq<u8>)
    requires
        queue.valid(),
        data.len() + 8 <= queue.capacity,
    ensures
        ({
            let forced = queue.push_force(data);
            let n = queue.packets.len() + 1 - forced.packets.len();
            &&& 0 <= n <= queue.packets.len()
            &&& forced.packets == queue.packets.skip(n).push(data)
            &&& model::framed_len(queue.packets.skip(n)) + data.len() + 8 <= queue.capacity
            &&& forall|fewer: int|
                0 <= fewer < n ==> #[trigger] model::framed_len(queue.packets.skip(fewer))
                    + data.len() + 8 > queue.capacity
            &&& forced.tail == (queue.tail + model::framed_len(queue.packets.take(n)))
                % queue.capacity
            &&& forced.capacity == queue.capacity
        }),
{
    law_make_room_is_least(queue, (data.len() + 8) as int);
}

/// A packet read as entry `i` holds the payload of packet `i`, and is split where the ring ends:
/// `a` has as many bytes as there are from the beginning of the payload to the end of the ring, or
/// all of them if there are fewer.
pub proof fn law_entry(queue: Queue, i: int, p: Packet<'_>)
    requires
        queue.valid(),
        0 <= i < queue.packets.len(),
        p.is_entry(queue, i),
    ensures
        p.a@ + p.b@ == queue.packets[i],
        ({
            let begin = (queue.tail + model::framed_len(queue.packets.take(i)) + 4)
                % queue.capacity;
            let len = queue.packets[i].len();
            &&& begin + len <= queue.capacity ==> p.a@ == queue.packets[i] && p.b@.len() == 0
            &&& begin + len > queue.capacity ==> p.a@.len() == queue.capacity - begin
        }),
        p.a@.len() + p.b@.len() <= usize::MAX,
{
    law_positions_of_entry(queue, i);
    let len = queue.packets[i].len() as int;
    assert(queue.packets[i].take(len) =~= queue.packets[i]);
}

/// Where the payload of packet `i` begins, whether it crosses the end of the ring, and how it is
/// split there.
pub proof fn law_positions_of_entry(queue: Queue, i: int)
    requires
        queue.valid(),
        0 <= i < queue.packets.len(),
    ensures
        queue.data_pos(i) == (queue.tail + model::framed_len(queue.packets.take(i)) + 4)
            % queue.capacity,
        queue.contiguous(i) <==> queue.data_pos(i) + queue.packets[i].len() <= queue.capacity,
        queue.first_part(i) + queue.second_part(i) == queue.packets[i],
        queue.contiguous(i) ==> queue.second_part(i).len() == 0,
        !queue.contiguous(i) ==> queue.first_part(i).len() == queue.capacity - queue.data_pos(i),
{
    framing::lemma_offset(queue.packets, i);
    law_wrap_is_modulo(
        queue.tail + model::framed_len(queue.packets.take(i)) + 4,
        queue.capacity,
    );
    assert(queue.first_part(i) + queue.second_part(i) =~= queue.packets[i]);
}

/// Making a packet contiguous changes nothing if it is; otherwise it moves the queue along so that
/// the payload begins at index zero, and changes nothing else.
pub proof fn law_rotation(queue: Queue, i: int)
    requires
        queue.valid(),
        0 <= i < queue.packets.len(),
    ensures
        ({
            let begin = (queue.tail + model::framed_len(queue.packets.take(i)) + 4)
                % queue.capacity;
            let moved = queue.make_contiguous(i);
            &&& begin + queue.packets[i].len() <= queue.capacity ==> moved == queue
            &&& begin + queue.packets[i].len() > queue.capacity ==> {
                &&& 0 <= moved.tail < queue.capacity
                &&& (moved.tail + model::framed_len(queue.packets.take(i)) + 4) % queue.capacity
                    == 0
            }
            &&& moved.packets == queue.packets
            &&& moved.capacity == queue.capacity
        }),
{
    law_positions_of_entry(queue, i);
    framing::lemma_offset(queue.packets, i);
    let moved = queue.make_contiguous(i);
    if !queue.contiguous(i) {
        law_wrap_is_modulo(
            moved.tail + model::framed_len(queue.packets.take(i)) + 4,
            queue.capacity,
        );
    }
}

/// An iteration forwards yields each packet left, the oldest first: where `p` is entry `i` of what
/// is left, `p` comes after `i` others.
pub proof fn law_forwards<'a, const N: usize>(iter: Iter<'a, N>, i: int, p: Packet<'a>)
    requires
        0 <= i < iter@.packets.len(),
        p.is_entry(iter@, i),
    ensures
        iter.upcoming().len() == iter@.packets.len(),
        iter.upcoming()[i] == p,
        vstd::std_specs::iter::IteratorSpec::obeys_prophetic_iter_laws(&iter),
        vstd::std_specs::iter::IteratorSpec::remaining(&iter) == iter.upcoming(),
        vstd::std_specs::iter::IteratorSpec::peek(&iter, i) == Some(p),
{
    p.lemma_entry_unique(iter@, i);
}

/// An iteration backwards yields each packet left, the newest first: where `p` is entry `i` of what
/// is left, `p` comes after those behind it.
pub proof fn law_backwards<'a, const N: usize>(iter: IterBackwards<'a, N>, i: int, p: Packet<'a>)
    requires
        0 <= i < iter@.packets.len(),
        p.is_entry(iter@, i),
    ensures
        iter.upcoming().len() == iter@.packets.len(),
        iter.upcoming()[iter@.packets.len() - 1 - i] == p,
        vstd::std_specs::iter::IteratorSpec::obeys_prophetic_iter_laws(&iter),
        vstd::std_specs::iter::IteratorSpec::remaining(&iter) == iter.upcoming(),
        vstd::std_specs::iter::IteratorSpec::peek(&iter, iter@.packets.len() - 1 - i) == Some(p),
{
    p.lemma_entry_unique(iter@, i);
}

// ---- packets written in pieces ----
/// A draft begins with an empty payload: in normal mode on the queue as it is, in force mode on the
/// queue without the least number of its oldest packets for which eight bytes are unused.
pub proof fn law_draft_begins(queue: Queue)
    requires
        queue.valid(),
    ensures
        ({
            let draft = Draft::begin(queue, false);
            draft.queue == queue && draft.payload.len() == 0 && !draft.force
        }),
        ({
            let draft = Draft::begin(queue, true);
            let n = queue.packets.len() - draft.queue.packets.len();
            &&& draft.payload.len() == 0
            &&& draft.force
            &&& 0 <= n <= queue.packets.len()
            &&& draft.queue.packets == queue.packets.skip(n)
            &&& model::framed_len(queue.packets.skip(n)) + 8 <= queue.capacity
            &&& forall|fewer: int|
                0 <= fewer < n ==> #[trigger] model::framed_len(queue.packets.skip(fewer)) + 8
                    > queue.capacity
            &&& draft.queue.tail == (queue.tail + model::framed_len(queue.packets.take(n)))
                % queue.capacity
            &&& draft.queue.capacity == queue.capacity
        }),
{
    law_make_room_is_least(queue, 8);
}

/// A piece is accepted in normal mode when the frame of the payload with it fits what the packets
/// leave of the ring, and in force mode when it fits the ring; it then stands behind the payload
/// written before, and in force mode the least number of the oldest packets has made room.
pub proof fn law_draft_grows(draft: Draft, data: Seq<u8>)
    requires
        draft.valid(),
    ensures
        !draft.force ==> (draft.accepts(data.len() as int) <==> model::framed_len(
            draft.queue.packets,
        ) + draft.payload.len() + data.len() + 8 <= draft.queue.capacity),
        draft.force ==> (draft.accepts(data.len() as int) <==> draft.payload.len() + data.len() + 8
            <= draft.queue.capacity),
        draft.push(data).payload == draft.payload + data,
        draft.push(data).force == draft.force,
        !draft.force ==> draft.push(data).queue == draft.queue,
        draft.force && draft.accepts(data.len() as int) ==> {
            let held = draft.queue;
            let kept = draft.push(data).queue;
            let need = draft.payload.len() + data.len() + 8;
            let n = held.packets.len() - kept.packets.len();
            &&& 0 <= n <= held.packets.len()
            &&& kept.packets == held.packets.skip(n)
            &&& model::framed_len(held.packets.skip(n)) + need <= held.capacity
            &&& forall|fewer: int|
                0 <= fewer < n ==> #[trigger] model::framed_len(held.packets.skip(fewer)) + need
                    > held.capacity
            &&& kept.tail == (held.tail + model::framed_len(held.packets.take(n))) % held.capacity
            &&& kept.capacity == held.capacity
        },
{
    if draft.force && draft.accepts(data.len() as int) {
        law_make_room_is_least(
            draft.queue,
            (draft.payload.len() + data.len() + 8) as int,
        );
    }
}

/// A draft has room for the packet as written, and committing it adds that packet behind the others
/// and leaves everything else.
pub proof fn law_draft_commits(draft: Draft)
    ensures
        draft.valid() <==> draft.queue.valid() && model::framed_len(draft.queue.packets)
            + draft.payload.len() + 8 <= draft.queue.capacity,
        draft.commit().packets == draft.queue.packets.push(draft.payload),
        draft.commit().tail == draft.queue.tail,
        draft.commit().capacity == draft.queue.capacity,
{
}

} // verus!
