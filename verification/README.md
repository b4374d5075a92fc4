# Bytearray-Ringbuffer

A fixed-capacity `VecDeque<Vec<u8>>` in one array, verified with Verus.

`BytearrayRingbuffer<N>` stores byte slices of any length in a `[u8; N]`, without padding and
without heap allocation. Each slice `data` uses up `data.len() + 8` bytes: its length as a `u32`,
the payload, and the length again.

Elements may wrap around at the end of the array. `pop_front`, `iter`, `iter_backwards`, `nth` and
`nth_reverse` return an element as a `Packet` with the fields `a` and `b`, which concatenate to the
payload; `b` is empty if the element does not wrap. `nth_contiguous` returns a single slice and
rotates the array where that is needed.

```rust
use bytearray_ringbuffer::BytearrayRingbuffer;

let mut buffer = BytearrayRingbuffer::<64>::new();
buffer.push(b"hello world").unwrap();
buffer.push(b"").unwrap();
assert_eq!(buffer.count(), 2);

let mut out = Vec::new();
buffer.pop_front().unwrap().extend_into(&mut out);
assert_eq!(out, b"hello world");

// A packet written in pieces is committed when the guard is dropped.
let mut mp = buffer.push_multipart().unwrap();
mp.push(b"hello").unwrap();
mp.push(b" world").unwrap();
drop(mp);
assert_eq!(buffer.count(), 2);
```

A verified caller ends a multi-part push with `commit` or `cancel`: Verus attaches no contract to
the point at which a value goes out of scope.

## Layout

| file | content |
|------|---------|
| `src/model.rs` | what a buffer holds (`Queue`) and a packet in the making (`Draft`) |
| `src/laws.rs` | what holds of the buffer as a whole |
| `src/ring.rs` | `BytearrayRingbuffer` |
| `src/multipart.rs` | `MultipartPush` |
| `src/iter.rs` | `Iter`, `IterBackwards` |
| `src/packet.rs`, `src/range.rs` | `Packet` and the ranges of `copy_part_into` |
| `src/framing.rs` | how the array holds the packets |
| `src/wrapping.rs` | index arithmetic and copying on a ring |
| `src/length.rs` | the length field |
| `app/` | entry points that test the preconditions, and generic ones |
