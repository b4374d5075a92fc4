//! Index arithmetic and copying on a ring of bytes.

#[allow(unused_imports)]
use crate::model;
use vstd::prelude::*;

verus! {

/// The bytes of a ring in the order in which they follow one another from index `start` on.
pub open spec fn unrolled(ring: Seq<u8>, start: int) -> Seq<u8> {
    ring.skip(start) + ring.take(start)
}

/// The ring `after` is the ring `before` with `data` written `offset` bytes after `start`, and no
/// other byte changed.
pub open spec fn overwritten(
    before: Seq<u8>,
    after: Seq<u8>,
    start: int,
    offset: int,
    data: Seq<u8>,
) -> bool {
    let line = unrolled(before, start);
    &&& after.len() == before.len()
    &&& unrolled(after, start) == line.take(offset) + data + line.skip(offset + data.len())
}

/// The byte index `offset` bytes after `addr` in a ring of `N` bytes.
pub(crate) fn add_wrapping<const N: usize>(addr: usize, offset: usize) -> (sum: usize)
    requires
        addr < N,
        offset <= N,
    ensures
        sum == model::wrap(addr + offset, N as int),
        sum < N,
    opens_invariants none
    no_unwind
{
    let rest: usize = N - addr;
    if offset < rest {
        addr + offset
    } else {
        offset - rest
    }
}

/// The byte index `offset` bytes before `addr` in a ring of `N` bytes.
pub(crate) fn sub_wrapping<const N: usize>(addr: usize, offset: usize) -> (difference: usize)
    requires
        addr < N,
        offset <= N,
    ensures
        difference == model::wrap(addr + N - offset, N as int),
        difference < N,
{
    if addr >= offset {
        addr - offset
    } else {
        N - offset + addr
    }
}

/// Copies `data` into `buffer` starting at `index`, continuing at index `0` if the write crosses
/// the end.
pub(crate) fn write_wrapping(buffer: &mut [u8], index: usize, data: &[u8])
    requires
        index < old(buffer)@.len(),
        data@.len() <= old(buffer)@.len(),
    ensures
        final(buffer)@.len() == old(buffer)@.len(),
        unrolled(final(buffer)@, index as int) == data@ + unrolled(old(buffer)@, index as int).skip(
            data@.len() as int,
        ),
{
    let rest: usize = buffer.len() - index;
    let mut k: usize = 0;
    while k < data.len()
        invariant
            index < buffer@.len(),
            rest == buffer@.len() - index,
            index + rest <= usize::MAX,
            data@.len() <= buffer@.len(),
            buffer@.len() == old(buffer)@.len(),
            k <= data@.len(),
            unrolled(buffer@, index as int) == data@.take(k as int) + unrolled(
                old(buffer)@,
                index as int,
            ).skip(k as int),
        decreases data@.len() - k,
    {
        let ghost before = buffer@;
        let at: usize = if k < rest {
            index + k
        } else {
            k - rest
        };
        buffer[at] = data[k];
        proof {
            let start = index as int;
            assert(unrolled(buffer@, start) =~= unrolled(before, start).update(
                k as int,
                data@[k as int],
            ));
            assert(unrolled(buffer@, start) =~= data@.take(k + 1) + unrolled(
                old(buffer)@,
                start,
            ).skip(k + 1));
        }
        k += 1;
    }
    assert(data@.take(k as int) =~= data@);
}

/// Writes the four bytes of a length field into `buffer` starting at `index`, continuing at index
/// `0` if the write crosses the end.
pub(crate) fn write_length<const N: usize>(buffer: &mut [u8; N], index: usize, field: [u8; 4])
    requires
        index < N,
        4 <= N,
    ensures
        unrolled(final(buffer)@, index as int) == field@ + unrolled(
            old(buffer)@,
            index as int,
        ).skip(4),
    opens_invariants none
    no_unwind
{
    let mut k: usize = 0;
    while k < 4
        invariant
            index < N,
            4 <= N,
            k <= 4,
            unrolled(buffer@, index as int) == field@.take(k as int) + unrolled(
                old(buffer)@,
                index as int,
            ).skip(k as int),
        decreases 4 - k,
    {
        let ghost before = buffer@;
        let at: usize = add_wrapping::<N>(index, k);
        buffer[at] = field[k];
        proof {
            let start = index as int;
            assert(unrolled(buffer@, start) =~= unrolled(before, start).update(
                k as int,
                field@[k as int],
            ));
            assert(unrolled(buffer@, start) =~= field@.take(k + 1) + unrolled(
                old(buffer)@,
                start,
            ).skip(k + 1));
        }
        k += 1;
    }
    assert(field@.take(4) =~= field@);
}

/// Fills `data` from `buffer` starting at `index`, wrapping to index `0` when the read crosses the
/// end.
pub(crate) fn read_wrapping(buffer: &[u8], index: usize, data: &mut [u8])
    requires
        index < buffer@.len(),
        old(data)@.len() <= buffer@.len(),
    ensures
        final(data)@ == unrolled(buffer@, index as int).take(old(data)@.len() as int),
{
    let rest: usize = buffer.len() - index;
    let mut k: usize = 0;
    while k < data.len()
        invariant
            index < buffer@.len(),
            rest == buffer@.len() - index,
            index + rest <= usize::MAX,
            data@.len() <= buffer@.len(),
            data@.len() == old(data)@.len(),
            k <= data@.len(),
            data@.take(k as int) == unrolled(buffer@, index as int).take(k as int),
        decreases data@.len() - k,
    {
        let ghost before = data@;
        let at: usize = if k < rest {
            index + k
        } else {
            k - rest
        };
        data[k] = buffer[at];
        proof {
            let line = unrolled(buffer@, index as int);
            assert(data@.take(k + 1) =~= before.take(k as int).push(line[k as int]));
            assert(line.take(k + 1) =~= line.take(k as int).push(line[k as int]));
        }
        k += 1;
    }
    assert(data@.take(k as int) =~= data@);
}

/// Reverses the order of the bytes of `buffer` from index `from` up to, not including, `to`.
fn reverse_range(buffer: &mut [u8], from: usize, to: usize)
    requires
        from <= to <= old(buffer)@.len(),
    ensures
        final(buffer)@ == old(buffer)@.take(from as int) + old(buffer)@.subrange(
            from as int,
            to as int,
        ).reverse() + old(buffer)@.skip(to as int),
{
    let mut i: usize = from;
    let mut j: usize = to;
    while i < j
        invariant
            from <= i,
            i <= j + 1,
            j <= to <= buffer@.len(),
            i - from == to - j,
            buffer@.len() == old(buffer)@.len(),
            forall|k: int|
                0 <= k < buffer@.len() ==> #[trigger] buffer@[k] == if from <= k < i || j <= k
                    < to {
                    old(buffer)@[from + to - 1 - k]
                } else {
                    old(buffer)@[k]
                },
        decreases j + 1 - i,
    {
        j -= 1;
        let moved: u8 = buffer[i];
        buffer[i] = buffer[j];
        buffer[j] = moved;
        i += 1;
    }
    assert(buffer@ =~= old(buffer)@.take(from as int) + old(buffer)@.subrange(
        from as int,
        to as int,
    ).reverse() + old(buffer)@.skip(to as int));
}

/// Rotates `buffer` in place, so that the byte at index `mid` comes to stand first.
pub(crate) fn rotate_left(buffer: &mut [u8], mid: usize)
    requires
        mid <= old(buffer)@.len(),
    ensures
        final(buffer)@ == unrolled(old(buffer)@, mid as int),
{
    let len: usize = buffer.len();
    reverse_range(buffer, 0, mid);
    reverse_range(buffer, mid, len);
    reverse_range(buffer, 0, len);
    assert(buffer@ =~= unrolled(old(buffer)@, mid as int));
}

} // verus!
