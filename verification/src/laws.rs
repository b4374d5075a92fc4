//! What holds of the ring buffer as a whole, whatever it holds and whatever is done to it.
//!
//! The laws speak of the model, as the contracts of the executable functions do: a push that
//! succeeds takes a buffer `ring` from `ring@` to `ring@.push(data@)`, and so on.

#[allow(unused_imports)]
use crate::framing;
#[allow(unused_imports)]
use crate::iter::{Iter, IterBackwards};
#[allow(unused_imports)]
use crate::model;
#[allow(unused_imports)]
use crate::model::{Draft, Queue};
#[allow(unused_imports)]
use crate::packet::Packet;
#[allow(unused_imports)]
use crate::wrapping;
use vstd::prelude::*;

verus! {

/// `queue` after all of `payloads` have been pushed, in order.
pub open spec fn push_all(queue: Queue, payloads: Seq<Seq<u8>>) -> Queue
    decreases payloads.len(),
{
    if payloads.len() == 0 {
        queue
    } else {
        push_all(queue, payloads.drop_last()).push(payloads.last())
    }
}

/// `queue` after its `n` oldest packets have been removed, one by one.
pub open spec fn pop_times(queue: Queue, n: nat) -> Queue
    decreases n,
{
    if n == 0 {
        queue
    } else {
        pop_times(queue, (n - 1) as nat).pop_front()
    }
}

/// `draft` after all of `chunks` have been written, in order.
pub open spec fn write_all(draft: Draft, chunks: Seq<Seq<u8>>) -> Draft
    decreases chunks.len(),
{
    if chunks.len() == 0 {
        draft
    } else {
        write_all(draft, chunks.drop_last()).push(chunks.last())
    }
}

/// All of `chunks`, one behind the other.
pub open spec fn joined(chunks: Seq<Seq<u8>>) -> Seq<u8>
    decreases chunks.len(),
{
    if chunks.len() == 0 {
        Seq::empty()
    } else {
        joined(chunks.drop_last()) + chunks.last()
    }
}

/// A new buffer is valid, and all its bytes are unused.
pub proof fn law_new_is_empty(capacity: int)
    requires
        8 < capacity < u32::MAX,
    ensures
        Queue::empty(capacity).valid(),
        Queue::empty(capacity).unused() == capacity,
        Queue::empty(capacity).free() == capacity - 8,
        Queue::empty(capacity).head() == Queue::empty(capacity).tail,
{
}

/// Every operation leads from a valid queue to a valid queue of the same capacity.
pub proof fn law_operations_keep_validity(queue: Queue, data: Seq<u8>, need: int, i: int)
    requires
        queue.valid(),
    ensures
        queue.fits(data.len() as int) ==> queue.push(data).valid(),
        data.len() + 8 <= queue.capacity ==> queue.push_force(data).valid(),
        queue.packets.len() > 0 ==> queue.pop_front().valid(),
        queue.packets.len() > 0 ==> queue.pop_back().valid(),
        need <= queue.capacity ==> queue.make_room(need).valid(),
        0 <= i < queue.packets.len() ==> queue.make_contiguous(i).valid(),
        queue.push(data).capacity == queue.capacity,
        queue.push_force(data).capacity == queue.capacity,
        queue.pop_front().capacity == queue.capacity,
        queue.pop_back().capacity == queue.capacity,
        queue.make_room(need).capacity == queue.capacity,
        queue.make_contiguous(i).capacity == queue.capacity,
{
    framing::lemma_framed_len_push(queue.packets, data);
    lemma_make_room_capacity(queue, need);
    lemma_make_room_capacity(queue, (data.len() + 8) as int);
    if data.len() + 8 <= queue.capacity {
        law_push_force(queue, data);
    }
    if queue.packets.len() > 0 {
        law_pop_front_frees(queue);
    }
    if need <= queue.capacity {
        law_make_room(queue, need);
    }
    if 0 <= i < queue.packets.len() {
        law_make_contiguous(queue, i);
    }
}

/// Packets come out in the order in which they went in: after any number of pushes and then any
/// number of pops, what is left is what was there and what was pushed, in order, without as many
/// of the oldest as were popped.
pub proof fn law_first_in_first_out(queue: Queue, payloads: Seq<Seq<u8>>, n: nat)
    requires
        n <= queue.packets.len() + payloads.len(),
    ensures
        push_all(queue, payloads).packets == queue.packets + payloads,
        pop_times(push_all(queue, payloads), n).packets == (queue.packets + payloads).skip(
            n as int,
        ),
{
    lemma_push_all(queue, payloads);
    lemma_pop_times(push_all(queue, payloads), n);
}

proof fn lemma_push_all(queue: Queue, payloads: Seq<Seq<u8>>)
    ensures
        push_all(queue, payloads).packets == queue.packets + payloads,
    decreases payloads.len(),
{
    if payloads.len() == 0 {
        assert(queue.packets + payloads =~= queue.packets);
    } else {
        lemma_push_all(queue, payloads.drop_last());
        assert((queue.packets + payloads.drop_last()).push(payloads.last()) =~= queue.packets
            + payloads);
    }
}

proof fn lemma_pop_times(queue: Queue, n: nat)
    requires
        n <= queue.packets.len(),
    ensures
        pop_times(queue, n).packets == queue.packets.skip(n as int),
    decreases n,
{
    if n == 0 {
        assert(queue.packets.skip(0) =~= queue.packets);
    } else {
        lemma_pop_times(queue, (n - 1) as nat);
        assert(queue.packets.skip(n - 1).drop_first() =~= queue.packets.skip(n as int));
    }
}

/// What is pushed is read back as the newest packet, and a push changes neither the other packets
/// nor where they lie.
pub proof fn law_push_then_read(queue: Queue, data: Seq<u8>)
    ensures
        queue.push(data).packets.len() == queue.packets.len() + 1,
        queue.push(data).packets.last() == data,
        forall|i: int|
            0 <= i < queue.packets.len() ==> {
                &&& #[trigger] queue.push(data).packets[i] == queue.packets[i]
                &&& queue.push(data).first_part(i) == queue.first_part(i)
                &&& queue.push(data).second_part(i) == queue.second_part(i)
            },
{
    assert forall|i: int| 0 <= i < queue.packets.len() implies {
        &&& #[trigger] queue.push(data).packets[i] == queue.packets[i]
        &&& queue.push(data).first_part(i) == queue.first_part(i)
        &&& queue.push(data).second_part(i) == queue.second_part(i)
    } by {
        assert(queue.push(data).packets.take(i) =~= queue.packets.take(i));
    }
}

/// A write to the ring changes the bytes it writes and no other: read from `start` on, `data`
/// stands `offset` bytes further, and every other byte is as before.
pub proof fn law_write_changes_nothing_else(
    before: Seq<u8>,
    after: Seq<u8>,
    start: int,
    offset: int,
    data: Seq<u8>,
)
    requires
        0 <= start < before.len(),
        0 <= offset,
        offset + data.len() <= before.len(),
        wrapping::overwritten(before, after, start, offset, data),
    ensures
        after.len() == before.len(),
        forall|k: int|
            0 <= k < before.len() ==> after[#[trigger] model::wrap(
                start + k,
                before.len() as int,
            )] == if offset <= k < offset + data.len() {
                data[k - offset]
            } else {
                before[model::wrap(start + k, before.len() as int)]
            },
{
    let n = before.len() as int;
    assert forall|k: int| 0 <= k < n implies after[#[trigger] model::wrap(start + k, n)]
        == if offset <= k < offset + data.len() {
        data[k - offset]
    } else {
        before[model::wrap(start + k, n)]
    } by {
        assert(wrapping::unrolled(after, start)[k] == after[model::wrap(start + k, n)]);
        assert(wrapping::unrolled(before, start)[k] == before[model::wrap(start + k, n)]);
    }
}

/// A write covered by a later one leaves no trace: after its pieces and then its frame, a packet
/// written in pieces has changed the bytes that one write of the frame changes.
pub proof fn law_covered_write_leaves_no_trace(
    before: Seq<u8>,
    between: Seq<u8>,
    after: Seq<u8>,
    start: int,
    offset: int,
    piece: Seq<u8>,
    frame: Seq<u8>,
)
    requires
        0 <= start < before.len(),
        0 <= offset,
        offset + piece.len() <= frame.len() <= before.len(),
        wrapping::overwritten(before, between, start, offset, piece),
        wrapping::overwritten(between, after, start, 0, frame),
    ensures
        wrapping::overwritten(before, after, start, 0, frame),
{
    let len = frame.len() as int;
    assert(wrapping::unrolled(between, start).skip(len) =~= wrapping::unrolled(
        before,
        start,
    ).skip(len));
    assert(wrapping::unrolled(between, start).take(0) =~= wrapping::unrolled(before, start).take(
        0,
    ));
}

/// A packet pushed to an empty queue and popped again leaves it empty, with all its bytes unused.
pub proof fn law_push_then_pop(queue: Queue, data: Seq<u8>)
    requires
        queue.valid(),
        queue.packets.len() == 0,
        queue.fits(data.len() as int),
    ensures
        queue.push(data).packets[0] == data,
        queue.push(data).pop_front().packets.len() == 0,
        queue.push(data).pop_front().unused() == queue.capacity,
        queue.push(data).pop_front().head() == queue.push(data).pop_front().tail,
{
}

/// Each packet takes up its payload and eight bytes more.
pub proof fn law_push_takes_payload_and_eight(queue: Queue, data: Seq<u8>)
    ensures
        queue.push(data).used() == queue.used() + data.len() + 8,
{
    framing::lemma_framed_len_push(queue.packets, data);
}

/// Removing the oldest packet gives back the bytes that it took up, and leaves the index at which
/// the next packet will begin.
pub proof fn law_pop_front_frees(queue: Queue)
    requires
        queue.valid(),
        queue.packets.len() > 0,
    ensures
        queue.pop_front().valid(),
        queue.pop_front().unused() == queue.unused() + queue.packets[0].len() + 8,
        queue.pop_front().head() == queue.head(),
{
    framing::lemma_framed_len_drop_first(queue.packets);
}

/// What is free is what is unused, less the eight bytes of framing, and never negative. A payload
/// that is not empty is accepted exactly up to that length, however long it is; an empty one is
/// accepted as long as the framing fits.
pub proof fn law_free_is_largest(queue: Queue, data: Seq<u8>)
    requires
        queue.valid(),
    ensures
        queue.free() == if queue.capacity - model::framed_len(queue.packets) >= 8 {
            queue.capacity - model::framed_len(queue.packets) - 8
        } else {
            0
        },
        data.len() > 0 ==> (queue.fits(data.len() as int) <==> data.len() <= queue.free()),
        data.len() == 0 ==> (queue.fits(data.len() as int) <==> queue.unused() >= 8),
        queue.fits(data.len() as int) ==> data.len() <= queue.capacity - 8,
{
}

/// Making room drops as few packets as possible, the oldest ones: what stays is the queue without
/// its `n` oldest packets, where `n` is the least number for which the room is there.
pub proof fn law_make_room(queue: Queue, need: int)
    requires
        queue.valid(),
        need <= queue.capacity,
    ensures
        queue.make_room(need).valid(),
        queue.make_room(need).capacity == queue.capacity,
        queue.make_room(need).head() == queue.head(),
        need <= queue.make_room(need).unused(),
        ({
            let n = queue.packets.len() - queue.make_room(need).packets.len();
            &&& 0 <= n <= queue.packets.len()
            &&& queue.make_room(need).packets == queue.packets.skip(n)
            &&& forall|fewer: int|
                0 <= fewer < n ==> queue.capacity - #[trigger] model::framed_len(
                    queue.packets.skip(fewer),
                ) < need
        }),
    decreases queue.packets.len(),
{
    if need <= queue.unused() || queue.packets.len() == 0 {
        assert(queue.packets.skip(0) =~= queue.packets);
    } else {
        let rest = queue.pop_front();
        law_pop_front_frees(queue);
        law_make_room(rest, need);
        let m = rest.packets.len() - rest.make_room(need).packets.len();
        assert(rest.packets.skip(m) =~= queue.packets.skip(m + 1));
        assert forall|fewer: int| 0 <= fewer < m + 1 implies queue.capacity
            - #[trigger] model::framed_len(queue.packets.skip(fewer)) < need by {
            if fewer == 0 {
                assert(queue.packets.skip(0) =~= queue.packets);
            } else {
                assert(queue.packets.skip(fewer) =~= rest.packets.skip(fewer - 1));
            }
        }
    }
}

/// A forced push keeps the newest packets and ends with the new one; where the new packet fits
/// anyway, it does what a push does.
pub proof fn law_push_force(queue: Queue, data: Seq<u8>)
    requires
        queue.valid(),
        data.len() + 8 <= queue.capacity,
    ensures
        queue.push_force(data).valid(),
        queue.push_force(data).packets.last() == data,
        ({
            let n = queue.packets.len() + 1 - queue.push_force(data).packets.len();
            &&& 0 <= n <= queue.packets.len()
            &&& queue.push_force(data).packets == queue.packets.skip(n).push(data)
        }),
        queue.fits(data.len() as int) ==> queue.push_force(data) == queue.push(data),
{
    law_make_room(queue, (data.len() + 8) as int);
    let roomy = queue.make_room((data.len() + 8) as int);
    framing::lemma_framed_len_push(roomy.packets, data);
}

/// The two parts of a packet are its payload, and the second is empty exactly when the payload
/// does not cross the end of the ring.
pub proof fn law_parts_join_to_payload(queue: Queue, i: int)
    requires
        queue.valid(),
        0 <= i < queue.packets.len(),
    ensures
        queue.first_part(i) + queue.second_part(i) == queue.packets[i],
        queue.second_part(i).len() == 0 <==> queue.contiguous(i),
{
    framing::lemma_offset(queue.packets, i);
    assert(queue.first_part(i) + queue.second_part(i) =~= queue.packets[i]);
}

/// Two packets read as the same entry of the same queue are the same, however they were reached.
pub proof fn law_entry_is_unique<'a>(queue: Queue, i: int, p: Packet<'a>, q: Packet<'a>)
    requires
        p.is_entry(queue, i),
        q.is_entry(queue, i),
    ensures
        p == q,
{
    p.lemma_entry_unique(queue, i);
    q.lemma_entry_unique(queue, i);
}

/// Removing packets leaves the others where they lie, so what an iteration yields is what popping
/// one packet after the other would yield.
pub proof fn law_iteration_follows_popping(queue: Queue, n: nat)
    requires
        queue.valid(),
        n <= queue.packets.len(),
    ensures
        pop_times(queue, n).valid(),
        forall|i: int|
            0 <= i < queue.packets.len() - n ==> {
                &&& #[trigger] pop_times(queue, n).packets[i] == queue.packets[n + i]
                &&& pop_times(queue, n).first_part(i) == queue.first_part(n + i)
                &&& pop_times(queue, n).second_part(i) == queue.second_part(n + i)
            },
    decreases n,
{
    lemma_pop_times(queue, n);
    if n > 0 {
        let before = pop_times(queue, (n - 1) as nat);
        law_iteration_follows_popping(queue, (n - 1) as nat);
        lemma_pop_times(queue, (n - 1) as nat);
        law_pop_front_frees(before);
        assert forall|i: int| 0 <= i < queue.packets.len() - n implies {
            &&& #[trigger] pop_times(queue, n).packets[i] == queue.packets[n + i]
            &&& pop_times(queue, n).first_part(i) == queue.first_part(n + i)
            &&& pop_times(queue, n).second_part(i) == queue.second_part(n + i)
        } by {
            framing::lemma_entry_pop_front(before, i);
            assert(before.packets[i + 1] == queue.packets[n - 1 + (i + 1)]);
        }
    }
}

/// An iteration backwards yields what an iteration forwards yields, in the opposite order.
pub proof fn law_backwards_is_reverse<'a, const N: usize>(
    forwards: Iter<'a, N>,
    backwards: IterBackwards<'a, N>,
)
    requires
        forwards@ == backwards@,
    ensures
        backwards.upcoming() == forwards.upcoming().reverse(),
{
    assert(backwards.upcoming() =~= forwards.upcoming().reverse());
}

/// Making a packet contiguous changes no packet, no count and no space, brings that packet into
/// one piece, and does nothing when repeated.
pub proof fn law_make_contiguous(queue: Queue, i: int)
    requires
        queue.valid(),
        0 <= i < queue.packets.len(),
    ensures
        queue.make_contiguous(i).valid(),
        queue.make_contiguous(i).packets == queue.packets,
        queue.make_contiguous(i).unused() == queue.unused(),
        queue.make_contiguous(i).contiguous(i),
        queue.make_contiguous(i).first_part(i) == queue.packets[i],
        queue.make_contiguous(i).make_contiguous(i) == queue.make_contiguous(i),
{
    framing::lemma_offset(queue.packets, i);
    let len = queue.packets[i].len() as int;
    assert(queue.packets[i].take(len) =~= queue.packets[i]);
}

/// Making more room after less comes to the same as making the greater room at once.
pub proof fn law_make_room_twice(queue: Queue, less: int, more: int)
    requires
        less <= more,
    ensures
        queue.make_room(less).make_room(more) == queue.make_room(more),
    decreases queue.packets.len(),
{
    if less > queue.unused() && queue.packets.len() > 0 {
        law_make_room_twice(queue.pop_front(), less, more);
    }
}

proof fn lemma_write_all_normal(queue: Queue, chunks: Seq<Seq<u8>>)
    ensures
        write_all(Draft::begin(queue, false), chunks) == (Draft {
            queue,
            payload: joined(chunks),
            force: false,
        }),
    decreases chunks.len(),
{
    if chunks.len() > 0 {
        lemma_write_all_normal(queue, chunks.drop_last());
    }
}

proof fn lemma_write_all_force(queue: Queue, chunks: Seq<Seq<u8>>)
    ensures
        write_all(Draft::begin(queue, true), chunks) == (Draft {
            queue: queue.make_room((joined(chunks).len() + 8) as int),
            payload: joined(chunks),
            force: true,
        }),
    decreases chunks.len(),
{
    if chunks.len() > 0 {
        let first = joined(chunks.drop_last());
        lemma_write_all_force(queue, chunks.drop_last());
        law_make_room_twice(
            queue,
            (first.len() + 8) as int,
            (first.len() + chunks.last().len() + 8) as int,
        );
    }
}

/// A packet written in pieces is the packet of the pieces joined: committing it does what one
/// push of the whole payload does, and one more piece is accepted exactly when the payload with it
/// would be.
pub proof fn law_multipart_is_push(queue: Queue, chunks: Seq<Seq<u8>>, len: int)
    ensures
        write_all(Draft::begin(queue, false), chunks).commit() == queue.push(joined(chunks)),
        write_all(Draft::begin(queue, false), chunks).accepts(len) <==> queue.fits(
            joined(chunks).len() + len,
        ),
{
    lemma_write_all_normal(queue, chunks);
}

/// In force mode, a packet written in pieces drops the packets that one forced push of the whole
/// payload drops, and one more piece is accepted exactly when the payload with it can fit the ring
/// at all.
pub proof fn law_multipart_force_is_push_force(queue: Queue, chunks: Seq<Seq<u8>>, len: int)
    requires
        queue.valid(),
    ensures
        write_all(Draft::begin(queue, true), chunks).commit() == queue.push_force(joined(chunks)),
        write_all(Draft::begin(queue, true), chunks).accepts(len) <==> joined(chunks).len() + len
            + 8 <= queue.capacity,
{
    lemma_write_all_force(queue, chunks);
    lemma_make_room_capacity(queue, (joined(chunks).len() + 8) as int);
}

proof fn lemma_make_room_capacity(queue: Queue, need: int)
    ensures
        queue.make_room(need).capacity == queue.capacity,
    decreases queue.packets.len(),
{
    if need > queue.unused() && queue.packets.len() > 0 {
        lemma_make_room_capacity(queue.pop_front(), need);
    }
}

/// A cancelled write leaves the queue as it was in normal mode; in force mode the packets that were
/// dropped to make room stay dropped, and nothing else changes.
pub proof fn law_cancel(queue: Queue, chunks: Seq<Seq<u8>>)
    ensures
        write_all(Draft::begin(queue, false), chunks).queue == queue,
        write_all(Draft::begin(queue, true), chunks).queue == queue.make_room(
            (joined(chunks).len() + 8) as int,
        ),
{
    lemma_write_all_normal(queue, chunks);
    lemma_write_all_force(queue, chunks);
}

/// Every piece that is accepted leaves a draft that has room for the packet, and an empty piece is
/// always accepted and changes nothing.
pub proof fn law_draft_keeps_validity(queue: Queue, draft: Draft, data: Seq<u8>)
    requires
        queue.valid(),
        draft.valid(),
    ensures
        queue.fits(0) ==> Draft::begin(queue, false).valid(),
        Draft::begin(queue, true).valid(),
        draft.accepts(data.len() as int) ==> draft.push(data).valid(),
        draft.commit().valid(),
        data.len() == 0 ==> draft.accepts(data.len() as int) && draft.push(data) == draft,
{
    law_make_room(queue, 8);
    if draft.accepts(data.len() as int) {
        law_make_room(draft.queue, (draft.payload.len() + data.len() + 8) as int);
    }
    framing::lemma_framed_len_push(draft.queue.packets, draft.payload);
    if data.len() == 0 {
        assert(draft.payload + data =~= draft.payload);
    }
}

} // verus!
