//! How the bytes of a ring hold the packets of a queue, and what follows from it.

#[allow(unused_imports)]
use crate::length;
#[allow(unused_imports)]
use crate::model;
use crate::model::Queue;
use crate::packet::Packet;
#[allow(unused_imports)]
use crate::wrapping;
use vstd::prelude::*;

verus! {

/// The length field of a payload of `len` bytes.
pub open spec fn field(len: nat) -> Seq<u8> {
    length::native_endian(len as u32)
}

/// The frame of `payload`: a length field, the payload, and the same length field again.
pub open spec fn frame(payload: Seq<u8>) -> Seq<u8> {
    field(payload.len()) + payload + field(payload.len())
}

/// The frame of `payload` begins at `offset` of `line`: a length field, the payload, and the same
/// length field again.
pub open spec fn frame_at(line: Seq<u8>, offset: int, payload: Seq<u8>) -> bool {
    let len = payload.len() as int;
    &&& 0 <= offset
    &&& offset + len + 8 <= line.len()
    &&& line.subrange(offset, offset + 4) == field(payload.len())
    &&& line.subrange(offset + 4, offset + 4 + len) == payload
    &&& line.subrange(offset + 4 + len, offset + 8 + len) == field(payload.len())
}

/// The bytes of `ring` hold the packets of `queue`, one frame behind the other.
pub open spec fn stored(ring: Seq<u8>, queue: Queue) -> bool {
    &&& queue.valid()
    &&& ring.len() == queue.capacity
    &&& forall|i: int|
        0 <= i < queue.packets.len() ==> #[trigger] frame_at(
            wrapping::unrolled(ring, queue.tail),
            model::framed_len(queue.packets.take(i)) as int,
            queue.packets[i],
        )
}

/// The bytes of `ring` hold `payload` where the payload of the next packet of `queue` belongs.
pub open spec fn staged(ring: Seq<u8>, queue: Queue, payload: Seq<u8>) -> bool {
    wrapping::unrolled(ring, model::wrap(queue.head() + 4, queue.capacity)).take(
        payload.len() as int,
    ) == payload
}

/// The lengths of two runs of packets add up.
pub proof fn lemma_framed_len_concat(a: Seq<Seq<u8>>, b: Seq<Seq<u8>>)
    ensures
        model::framed_len(a + b) == model::framed_len(a) + model::framed_len(
            b,
        ),
    decreases b.len(),
{
    if b.len() == 0 {
        assert(a + b =~= a);
    } else {
        lemma_framed_len_concat(a, b.drop_last());
        assert((a + b).drop_last() =~= a + b.drop_last());
    }
}

/// One packet more takes up its payload and two length fields.
pub proof fn lemma_framed_len_push(packets: Seq<Seq<u8>>, data: Seq<u8>)
    ensures
        model::framed_len(packets.push(data)) == model::framed_len(packets)
            + data.len() + 8,
{
    assert(packets.push(data).drop_last() =~= packets);
}

/// Packet `i` begins where the packets before it end, and ends within what all packets take up.
pub proof fn lemma_offset(packets: Seq<Seq<u8>>, i: int)
    requires
        0 <= i < packets.len(),
    ensures
        model::framed_len(packets.take(i + 1)) == model::framed_len(packets.take(i))
            + packets[i].len() + 8,
        model::framed_len(packets.take(i)) + packets[i].len() + 8
            <= model::framed_len(packets),
{
    assert(packets.take(i + 1) =~= packets.take(i).push(packets[i]));
    lemma_framed_len_push(packets.take(i), packets[i]);
    assert(packets =~= packets.take(i + 1) + packets.skip(i + 1));
    lemma_framed_len_concat(packets.take(i + 1), packets.skip(i + 1));
}

/// Without the oldest packet, every other one begins that much earlier.
pub proof fn lemma_offset_drop_first(packets: Seq<Seq<u8>>, i: int)
    requires
        0 <= i < packets.len(),
    ensures
        model::framed_len(packets.take(i + 1)) == packets[0].len() + 8
            + model::framed_len(packets.drop_first().take(i)),
{
    let first = seq![packets[0]];
    assert(packets.take(i + 1) =~= first + packets.drop_first().take(i));
    lemma_framed_len_concat(first, packets.drop_first().take(i));
    assert(first =~= Seq::<Seq<u8>>::empty().push(packets[0]));
    lemma_framed_len_push(Seq::empty(), packets[0]);
}

/// What all packets take up is what the oldest one and the others take up.
pub proof fn lemma_framed_len_drop_first(packets: Seq<Seq<u8>>)
    requires
        packets.len() > 0,
    ensures
        model::framed_len(packets) == packets[0].len() + 8 + model::framed_len(
            packets.drop_first(),
        ),
{
    let last = packets.len() - 1;
    lemma_offset_drop_first(packets, last);
    assert(packets.take(last + 1) =~= packets);
    assert(packets.drop_first().take(last) =~= packets.drop_first());
}

/// No packet takes up less than its two length fields.
pub proof fn lemma_framed_len_lower_bound(packets: Seq<Seq<u8>>)
    ensures
        8 * packets.len() <= model::framed_len(packets),
    decreases packets.len(),
{
    if packets.len() > 0 {
        lemma_framed_len_lower_bound(packets.drop_last());
    }
}

/// The ring read from `offset` bytes after `start` is the ring read from `start` on, rotated.
pub proof fn lemma_unrolled_shift(ring: Seq<u8>, start: int, offset: int)
    requires
        0 <= start < ring.len(),
        0 <= offset <= ring.len(),
    ensures
        wrapping::unrolled(ring, model::wrap(start + offset, ring.len() as int))
            == wrapping::unrolled(wrapping::unrolled(ring, start), offset),
{
    let n = ring.len() as int;
    let at = model::wrap(start + offset, n);
    let line = wrapping::unrolled(ring, start);
    assert(wrapping::unrolled(ring, at) =~= wrapping::unrolled(line, offset));
}

/// A run of bytes read `offset` bytes after `start` is a run of the ring read from `start` on.
pub proof fn lemma_read_at(ring: Seq<u8>, start: int, offset: int, len: int)
    requires
        0 <= start < ring.len(),
        0 <= offset,
        0 <= len,
        offset + len <= ring.len(),
    ensures
        wrapping::unrolled(
            ring,
            model::wrap(start + offset, ring.len() as int),
        ).take(len) == wrapping::unrolled(ring, start).subrange(offset, offset + len),
{
    lemma_unrolled_shift(ring, start, offset);
    let line = wrapping::unrolled(ring, start);
    assert(wrapping::unrolled(line, offset).take(len) =~= line.subrange(
        offset,
        offset + len,
    ));
}

/// A write `offset` bytes after `start` replaces a run of the ring read from `start` on, and
/// nothing else.
pub proof fn lemma_write_at(before: Seq<u8>, after: Seq<u8>, start: int, offset: int, data: Seq<u8>)
    requires
        0 <= start < before.len(),
        0 <= offset,
        offset + data.len() <= before.len(),
        after.len() == before.len(),
        ({
            let at = model::wrap(start + offset, before.len() as int);
            wrapping::unrolled(after, at) == data + wrapping::unrolled(
                before,
                at,
            ).skip(data.len() as int)
        }),
    ensures
        wrapping::overwritten(before, after, start, offset, data),
{
    let n = before.len() as int;
    let at = model::wrap(start + offset, n);
    let old_line = wrapping::unrolled(before, start);
    let new_line = wrapping::unrolled(after, start);
    lemma_unrolled_shift(before, start, offset);
    lemma_unrolled_shift(after, start, offset);
    let old_rot = wrapping::unrolled(old_line, offset);
    let new_rot = wrapping::unrolled(new_line, offset);
    let expected = old_line.take(offset) + data + old_line.skip(offset + data.len());
    assert forall|k: int| 0 <= k < n implies new_line[k] == expected[k] by {
        if k >= offset {
            assert(new_line[k] == new_rot[k - offset]);
            assert(old_line[k] == old_rot[k - offset]);
        } else {
            assert(new_line[k] == new_rot[n - offset + k]);
            assert(old_line[k] == old_rot[n - offset + k]);
        }
    }
    assert(new_line =~= expected);
}

/// Where the length fields and the payload of packet `i` stand in the ring.
pub proof fn lemma_entry(ring: Seq<u8>, queue: Queue, i: int)
    requires
        stored(ring, queue),
        0 <= i < queue.packets.len(),
    ensures
        ({
            let n = queue.capacity;
            let len = queue.packets[i].len() as int;
            let offset = model::framed_len(queue.packets.take(i)) as int;
            let at = model::wrap(queue.tail + offset, n);
            let foot = model::wrap(queue.tail + offset + len + 4, n);
            &&& len + 8 <= n
            &&& offset + len + 8 <= queue.used()
            &&& wrapping::unrolled(ring, at).take(4) == field(len as nat)
            &&& model::wrap(at + 4, n) == queue.data_pos(i)
            &&& wrapping::unrolled(ring, queue.data_pos(i)).take(len) == queue.packets[i]
            &&& wrapping::unrolled(ring, foot).take(4) == field(len as nat)
            &&& model::wrap(at + len + 8, n) == model::wrap(
                queue.tail + model::framed_len(queue.packets.take(i + 1)),
                n,
            )
        }),
{
    let len = queue.packets[i].len() as int;
    let offset = model::framed_len(queue.packets.take(i)) as int;
    lemma_offset(queue.packets, i);
    assert(frame_at(wrapping::unrolled(ring, queue.tail), offset, queue.packets[i]));
    lemma_read_at(ring, queue.tail, offset, 4);
    lemma_read_at(ring, queue.tail, offset + 4, len);
    lemma_read_at(ring, queue.tail, offset + 4 + len, 4);
}

/// The ring still holds the packets of `queue` when only bytes that belong to no packet change.
pub proof fn lemma_stored_unused_write(before: Seq<u8>, after: Seq<u8>, queue: Queue)
    requires
        stored(before, queue),
        after.len() == before.len(),
        wrapping::unrolled(after, queue.tail).take(queue.used()) == wrapping::unrolled(
            before,
            queue.tail,
        ).take(queue.used()),
    ensures
        stored(after, queue),
{
    let old_line = wrapping::unrolled(before, queue.tail);
    let new_line = wrapping::unrolled(after, queue.tail);
    let used = queue.used();
    assert forall|i: int| 0 <= i < queue.packets.len() implies #[trigger] frame_at(
        new_line,
        model::framed_len(queue.packets.take(i)) as int,
        queue.packets[i],
    ) by {
        let len = queue.packets[i].len() as int;
        let offset = model::framed_len(queue.packets.take(i)) as int;
        lemma_offset(queue.packets, i);
        assert(frame_at(old_line, offset, queue.packets[i]));
        assert forall|k: int| 0 <= k < used implies new_line[k] == old_line[k] by {
            assert(new_line.take(used)[k] == old_line.take(used)[k]);
        }
        assert(new_line.subrange(offset, offset + 4) =~= old_line.subrange(offset, offset + 4));
        assert(new_line.subrange(offset + 4, offset + 4 + len) =~= old_line.subrange(
            offset + 4,
            offset + 4 + len,
        ));
        assert(new_line.subrange(offset + 4 + len, offset + 8 + len) =~= old_line.subrange(
            offset + 4 + len,
            offset + 8 + len,
        ));
    }
}

/// A frame written behind the newest packet adds its payload to the queue.
pub proof fn lemma_stored_push(ring: Seq<u8>, queue: Queue, data: Seq<u8>)
    requires
        stored(ring, queue),
        queue.fits(data.len() as int),
        frame_at(wrapping::unrolled(ring, queue.tail), queue.used(), data),
    ensures
        stored(ring, queue.push(data)),
        queue.push(data).head() == model::wrap(queue.head() + data.len() + 8, queue.capacity),
{
    let longer = queue.push(data);
    let count = queue.packets.len() as int;
    lemma_framed_len_push(queue.packets, data);
    assert forall|i: int| 0 <= i < longer.packets.len() implies #[trigger] frame_at(
        wrapping::unrolled(ring, longer.tail),
        model::framed_len(longer.packets.take(i)) as int,
        longer.packets[i],
    ) by {
        assert(longer.packets.take(i) =~= queue.packets.take(i));
        if i < count {
            assert(frame_at(
                wrapping::unrolled(ring, queue.tail),
                model::framed_len(queue.packets.take(i)) as int,
                queue.packets[i],
            ));
        } else {
            assert(queue.packets.take(i) =~= queue.packets);
        }
    }
}

/// The bytes that hold a queue hold it without its oldest packet too, from further on.
pub proof fn lemma_stored_pop_front(ring: Seq<u8>, queue: Queue)
    requires
        stored(ring, queue),
        queue.packets.len() > 0,
    ensures
        stored(ring, queue.pop_front()),
        queue.pop_front().head() == queue.head(),
        queue.pop_front().used() == queue.used() - queue.packets[0].len() - 8,
{
    let shorter = queue.pop_front();
    let gone = queue.packets[0].len() + 8;
    let old_line = wrapping::unrolled(ring, queue.tail);
    let new_line = wrapping::unrolled(ring, shorter.tail);
    lemma_framed_len_drop_first(queue.packets);
    lemma_unrolled_shift(ring, queue.tail, gone as int);
    assert forall|i: int| 0 <= i < shorter.packets.len() implies #[trigger] frame_at(
        new_line,
        model::framed_len(shorter.packets.take(i)) as int,
        shorter.packets[i],
    ) by {
        let len = shorter.packets[i].len() as int;
        let offset = model::framed_len(shorter.packets.take(i)) as int;
        lemma_offset_drop_first(queue.packets, i);
        lemma_offset(shorter.packets, i);
        assert(frame_at(old_line, offset + gone, queue.packets[i + 1]));
        assert(new_line.subrange(offset, offset + 4) =~= old_line.subrange(
            offset + gone,
            offset + gone + 4,
        ));
        assert(new_line.subrange(offset + 4, offset + 4 + len) =~= old_line.subrange(
            offset + gone + 4,
            offset + gone + 4 + len,
        ));
        assert(new_line.subrange(offset + 4 + len, offset + 8 + len) =~= old_line.subrange(
            offset + gone + 4 + len,
            offset + gone + 8 + len,
        ));
    }
}

/// The bytes that hold a queue hold it without its newest packet too.
pub proof fn lemma_stored_pop_back(ring: Seq<u8>, queue: Queue)
    requires
        stored(ring, queue),
        queue.packets.len() > 0,
    ensures
        stored(ring, queue.pop_back()),
{
    let shorter = queue.pop_back();
    assert forall|i: int| 0 <= i < shorter.packets.len() implies #[trigger] frame_at(
        wrapping::unrolled(ring, shorter.tail),
        model::framed_len(shorter.packets.take(i)) as int,
        shorter.packets[i],
    ) by {
        assert(shorter.packets.take(i) =~= queue.packets.take(i));
        assert(frame_at(
            wrapping::unrolled(ring, queue.tail),
            model::framed_len(queue.packets.take(i)) as int,
            queue.packets[i],
        ));
    }
}

/// A rotated ring holds the same packets, from an index that has moved along.
pub proof fn lemma_stored_rotate(ring: Seq<u8>, queue: Queue, mid: int)
    requires
        stored(ring, queue),
        0 <= mid < queue.capacity,
    ensures
        stored(
            wrapping::unrolled(ring, mid),
            Queue {
                tail: model::wrap(queue.tail + queue.capacity - mid, queue.capacity),
                ..queue
            },
        ),
{
    let n = queue.capacity;
    let tail = model::wrap(queue.tail + n - mid, n);
    let rotated = wrapping::unrolled(ring, mid);
    let moved = Queue { tail, ..queue };
    assert(wrapping::unrolled(rotated, tail) =~= wrapping::unrolled(ring, queue.tail));
    assert forall|i: int| 0 <= i < moved.packets.len() implies #[trigger] frame_at(
        wrapping::unrolled(rotated, tail),
        model::framed_len(moved.packets.take(i)) as int,
        moved.packets[i],
    ) by {
        assert(frame_at(
            wrapping::unrolled(ring, queue.tail),
            model::framed_len(queue.packets.take(i)) as int,
            queue.packets[i],
        ));
    }
}

/// Reads the length field at `index`.
pub(crate) fn read_length<const N: usize>(buffer: &[u8; N], index: usize) -> (len: usize)
    requires
        8 < N < u32::MAX,
        index < N,
    ensures
        len <= u32::MAX,
        field(len as nat) == wrapping::unrolled(buffer@, index as int).take(4),
{
    let mut bytes: [u8; 4] = [0; 4];
    wrapping::read_wrapping(buffer, index, &mut bytes);
    length::from_ne_bytes(bytes) as usize
}

/// Borrows the `len` bytes of `buffer` from `index` on, in two pieces if they cross the end.
pub(crate) fn payload_at<'a, const N: usize>(
    buffer: &'a [u8; N],
    index: usize,
    len: usize,
) -> (packet: Packet<'a>)
    requires
        index < N,
        len <= N,
    ensures
        packet@ == wrapping::unrolled(buffer@, index as int).take(len as int),
        packet.a@.len() == if index + len <= N {
            len as int
        } else {
            N - index
        },
{
    let first: usize = if len <= N - index {
        len
    } else {
        N - index
    };
    let packet = Packet { a: &buffer[index..index + first], b: &buffer[0..len - first] };
    assert(packet@ =~= wrapping::unrolled(buffer@, index as int).take(len as int));
    packet
}

/// The entries of a queue without its oldest packet lie where they lay.
pub proof fn lemma_entry_pop_front(queue: Queue, i: int)
    requires
        queue.valid(),
        0 <= i < queue.packets.len() - 1,
    ensures
        queue.pop_front().packets[i] == queue.packets[i + 1],
        queue.pop_front().data_pos(i) == queue.data_pos(i + 1),
        queue.pop_front().first_part(i) == queue.first_part(i + 1),
        queue.pop_front().second_part(i) == queue.second_part(i + 1),
{
    lemma_offset_drop_first(queue.packets, i);
    lemma_offset(queue.packets, i + 1);
}

/// The entries of a queue without its newest packet lie where they lay.
pub proof fn lemma_entry_pop_back(queue: Queue, i: int)
    requires
        0 <= i < queue.packets.len() - 1,
    ensures
        queue.pop_back().packets[i] == queue.packets[i],
        queue.pop_back().data_pos(i) == queue.data_pos(i),
        queue.pop_back().first_part(i) == queue.first_part(i),
        queue.pop_back().second_part(i) == queue.second_part(i),
{
    assert(queue.pop_back().packets.take(i) =~= queue.packets.take(i));
}

/// A length field read back is the length of the payload beside it.
pub proof fn lemma_field_injective(a: nat, b: nat)
    requires
        a <= u32::MAX,
        b <= u32::MAX,
        field(a) == field(b),
    ensures
        a == b,
{
    length::lemma_native_endian_injective(a as u32, b as u32);
}

/// Reads packet `i` of the queue that `buffer` holds, whose frame begins at `at` and whose payload
/// has `len` bytes.
pub(crate) fn read_entry<'a, const N: usize>(
    buffer: &'a [u8; N],
    at: usize,
    len: usize,
    Ghost(queue): Ghost<Queue>,
    Ghost(i): Ghost<int>,
) -> (packet: Packet<'a>)
    requires
        stored(buffer@, queue),
        0 <= i < queue.packets.len(),
        at == model::wrap(
            queue.tail + model::framed_len(queue.packets.take(i)),
            queue.capacity,
        ),
        len == queue.packets[i].len(),
    ensures
        packet.is_entry(queue, i),
{
    proof {
        lemma_entry(buffer@, queue, i);
    }
    let packet = payload_at(buffer, wrapping::add_wrapping::<N>(at, 4), len);
    assert(packet.a@ =~= packet@.take(queue.split(i)));
    assert(packet.b@ =~= packet@.skip(queue.split(i)));
    packet
}

/// Reads the oldest packet of the queue that `buffer` holds, whose frame begins at `tail`.
pub(crate) fn read_oldest<'a, const N: usize>(
    buffer: &'a [u8; N],
    tail: usize,
    Ghost(queue): Ghost<Queue>,
) -> (packet: Packet<'a>)
    requires
        stored(buffer@, queue),
        queue.packets.len() > 0,
        tail == queue.tail,
    ensures
        packet.is_entry(queue, 0),
{
    assert(queue.packets.take(0) =~= Seq::empty());
    proof {
        lemma_entry(buffer@, queue, 0);
    }
    let len: usize = read_length(buffer, tail);
    proof {
        lemma_field_injective(len as nat, queue.packets[0].len());
    }
    read_entry(buffer, tail, len, Ghost(queue), Ghost(0))
}

/// Reads the newest packet of the queue that `buffer` holds, whose frame ends at `head`.
pub(crate) fn read_newest<'a, const N: usize>(
    buffer: &'a [u8; N],
    head: usize,
    Ghost(queue): Ghost<Queue>,
) -> (packet: Packet<'a>)
    requires
        stored(buffer@, queue),
        queue.packets.len() > 0,
        head == queue.head(),
    ensures
        packet.is_entry(queue, queue.packets.len() - 1),
{
    let ghost last = queue.packets.len() - 1;
    proof {
        lemma_entry(buffer@, queue, last);
        lemma_offset(queue.packets, last);
        assert(queue.packets.take(last + 1) =~= queue.packets);
    }
    let len: usize = read_length(buffer, wrapping::sub_wrapping::<N>(head, 4));
    proof {
        lemma_field_injective(len as nat, queue.packets[last].len());
    }
    let at: usize = wrapping::sub_wrapping::<N>(head, 8 + len);
    read_entry(buffer, at, len, Ghost(queue), Ghost(last))
}

} // verus!
