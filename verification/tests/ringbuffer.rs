use std::collections::VecDeque;

use bytearray_ringbuffer::BytearrayRingbuffer;

/// An empty buffer whose next packet will begin at byte index `offset`.
fn at_offset<const N: usize>(offset: usize) -> BytearrayRingbuffer<N> {
    let mut buf = BytearrayRingbuffer::<N>::new();
    if offset >= 8 {
        buf.push(&vec![0u8; offset - 8]).unwrap();
        buf.pop_front().unwrap();
    } else if offset > 0 {
        buf.push(b"").unwrap();
        buf.pop_front().unwrap();
        buf.push(&vec![0u8; N + offset - 16]).unwrap();
        buf.pop_front().unwrap();
    }
    assert_eq!(buf.head(), offset);
    assert_eq!(buf.tail(), offset);
    assert!(buf.empty());
    buf
}

#[test]
fn push_some_packets() {
    const N: usize = 64;
    for start_offset in 0..N {
        let mut buf = at_offset::<N>(start_offset);

        let free = 64 - 8;
        assert_eq!(buf.free(), free);

        buf.push(b"01234567").unwrap();
        let free = free - 8 - 8;
        assert_eq!(buf.free(), free);

        buf.push(b"").unwrap();
        let free = free - 8;
        assert_eq!(buf.free(), free);

        buf.push(b"0123").unwrap();
        let free = free - 4 - 8;
        assert_eq!(buf.free(), free);

        buf.push(b"0123").unwrap();
        let free = free - 4 - 8;
        assert_eq!(buf.free(), free);
    }
}

#[test]
fn push_force() {
    let mut buf = BytearrayRingbuffer::<16>::new();
    assert_eq!(buf.bytes_unused(), 16);

    let a = b"012345";
    let b = b"0123";

    buf.push(a).unwrap();
    assert_eq!(buf.bytes_unused(), 16 - a.len() - 8);

    buf.push(b).unwrap_err();
    assert_eq!(buf.bytes_unused(), 16 - a.len() - 8);

    buf.push_force(b).unwrap();
    assert_eq!(buf.bytes_unused(), 16 - b.len() - 8);
}

#[test]
fn push_all_data_lengths() {
    for n in 0..(32 - 8) {
        let mut buf = BytearrayRingbuffer::<32>::new();
        // push n bytes
        let data = (0..n as u8).collect::<Vec<u8>>();

        assert_eq!(buf.free(), 32 - 8);
        buf.push(&data).unwrap();
        assert_eq!(buf.free(), (32usize - 16).saturating_sub(n));
    }
}

#[test]
fn push_sum_of_lengths_possible() {
    let mut buf = BytearrayRingbuffer::<32>::new();
    // push 2 x 8 bytes
    assert_eq!(buf.free(), 32 - 8);
    buf.push(b"01234567").unwrap();
    assert_eq!(buf.free(), 32 - 8 - 16);
    buf.push(b"01234567").unwrap();
    assert_eq!(buf.free(), 0);
}

#[test]
fn push_pop() {
    const N: usize = 64;
    for start_offset in 0..N {
        println!("--------------");
        let mut buf = at_offset::<N>(start_offset);

        let data = b"01234567";
        buf.push(data).unwrap();

        let p = buf.pop_front().unwrap();
        let mut out = Vec::new();
        out.extend_from_slice(p.a);
        out.extend_from_slice(p.b);

        println!("{:?}", out.as_slice());
        assert!(data == out.as_slice());

        assert_eq!(buf.head(), buf.tail());
        assert_eq!(buf.bytes_unused(), N);
    }
}

#[test]
fn push_read_back() {
    let data = [b"hello world" as &[u8], b"", b"test"];

    const N: usize = 64;
    for start_offset in 0..N {
        let mut buf = at_offset::<N>(start_offset);

        for &d in &data {
            buf.push(d).unwrap();
        }

        // test forward iteration
        let mut it = buf.iter();
        for &d in data.iter() {
            let p = it.next().unwrap();
            let mut ab = Vec::new();
            ab.extend_from_slice(p.a);
            ab.extend_from_slice(p.b);
            let ab = ab.as_slice();
            assert_eq!(d, ab);
        }
        assert_eq!(it.next(), None);

        // test backward iteration
        let mut it = buf.iter_backwards();
        for &d in data.iter().rev() {
            let p = it.next().unwrap();
            let mut ab = Vec::new();
            ab.extend_from_slice(p.a);
            ab.extend_from_slice(p.b);
            let ab = ab.as_slice();
            assert_eq!(d, ab);
        }
        assert_eq!(it.next(), None);
    }
}

#[test]
fn push_count() {
    let mut buf = BytearrayRingbuffer::<64>::new();
    buf.push(b"1234").unwrap();
    assert_eq!(buf.count(), 1);
    buf.push(b"1234").unwrap();
    assert_eq!(buf.count(), 2);
    buf.push(b"1234").unwrap();
    assert_eq!(buf.count(), 3);
}

fn test_with_readback<const N: usize>(words: &[&'static str]) {
    println!("--------------------------");
    let mut buf = BytearrayRingbuffer::<N>::new();
    let mut current_words = VecDeque::new();
    for &word in words {
        println!("adding {word:?}");
        let word = word.to_owned();
        let current_bytes: usize = current_words.iter().map(|w: &String| w.len() + 8).sum();
        if current_bytes + 8 + word.len() > N {
            current_words.pop_front();
        }

        buf.push_force(word.as_bytes()).unwrap();
        current_words.push_back(word);

        for (p, word) in buf.iter_backwards().zip(current_words.iter().rev()) {
            println!("read back {word:?}");
            let mut st = String::new();
            st.push_str(core::str::from_utf8(p.a).unwrap());
            st.push_str(core::str::from_utf8(p.b).unwrap());
            assert_eq!(st, *word);
        }
    }
}

#[test]
fn readback_various() {
    test_with_readback::<32>(&["ab", "123", "hello", "world"]);
    test_with_readback::<32>(&["", "", "a", "", "", ""]);
    test_with_readback::<32>(&["", "", "ab", "", "", ""]);
    test_with_readback::<32>(&["", "", "abc", "", "", ""]);
    test_with_readback::<32>(&["", "", "abcd", "", "", ""]);
    test_with_readback::<32>(&["", "", "abcde", "", "", ""]);

    test_with_readback::<24>(&["0", "1", "a", "2", "3", "4"]);
    test_with_readback::<24>(&["0", "1", "ab", "2", "3", "4"]);
    test_with_readback::<24>(&["0", "1", "abc", "2", "3", "4"]);
    test_with_readback::<24>(&["0", "1", "abcd", "2", "3", "4"]);
    test_with_readback::<24>(&["0", "1", "abcde", "2", "3", "4"]);
    test_with_readback::<24>(&["0", "1", "abcdef", "2", "3", "4"]);
    test_with_readback::<24>(&["0", "1", "abcdefg", "2", "3", "4"]);
}

#[test]
fn nth_contiguous_out_of_range_returns_none() {
    let mut buf = BytearrayRingbuffer::<64>::new();
    buf.push(b"hello").unwrap();
    assert_eq!(buf.count(), 1);

    assert_eq!(buf.nth_contiguous(1), None);
}

#[test]
fn rotate_contiguous() {
    const N: usize = 48;
    let data: [&[u8]; 3] = [b"012345", b"hello world", b"xyz"];

    for offset in 0..N {
        let mut buf = at_offset::<N>(offset);

        for &d in &data {
            buf.push(d).unwrap();
        }

        let read = buf.nth_contiguous(1).unwrap();
        assert_eq!(data[1], read);

        // check if the contents are still the same
        for (&r, p) in data.iter().zip(buf.iter()) {
            let mut out = Vec::new();
            out.extend_from_slice(p.a);
            out.extend_from_slice(p.b);
            assert_eq!(out.as_slice(), r);
        }
    }
}

// ---- multipart push tests ----

fn collect(a: &[u8], b: &[u8]) -> Vec<u8> {
    let mut v = Vec::new();
    v.extend_from_slice(a);
    v.extend_from_slice(b);
    v
}

#[test]
fn multipart_normal_fits() {
    const N: usize = 64;
    for offset in 0..N {
        let mut buf = at_offset::<N>(offset);

        let mut mp = buf.push_multipart().unwrap();
        mp.push(b"hello").unwrap();
        mp.push(b" ").unwrap();
        mp.push(b"world").unwrap();
        drop(mp);

        assert_eq!(buf.count(), 1);
        let p = buf.pop_front().unwrap();
        assert_eq!(collect(p.a, p.b), b"hello world");
        assert_eq!(buf.count(), 0);
    }
}

#[test]
fn multipart_empty_packet() {
    let mut buf = BytearrayRingbuffer::<64>::new();
    let mp = buf.push_multipart().unwrap();
    drop(mp); // no push calls
    assert_eq!(buf.count(), 1);
    let p = buf.pop_front().unwrap();
    assert_eq!(collect(p.a, p.b), b"");
}

#[test]
fn multipart_normal_overflow_returns_err() {
    // Buffer: 24 bytes. One existing packet of 8 bytes (payload 0, 8 bytes overhead).
    // That leaves 16 bytes unused. Starting multipart reserves 4 for the header → 12 bytes
    // free for payload+footer. First push of 4 bytes is fine (leaves 8 for footer). Second
    // push of 5 bytes should fail (needs 9 for data+footer, only 8 remain).
    let mut buf = BytearrayRingbuffer::<24>::new();
    buf.push(b"").unwrap(); // occupies 8 bytes, leaving 16 unused

    let mut mp = buf.push_multipart().unwrap();
    mp.push(b"abcd").unwrap(); // 4 bytes payload + 4 footer still needed → OK
    let err = mp.push(b"12345"); // would need 9 bytes (5 data + 4 footer), only 8 unused → Err
    assert!(err.is_err());

    // The guard is still usable; drop it and confirm the partial write is committed.
    drop(mp);
    assert_eq!(buf.count(), 2);
    // The committed packet contains only the first successful chunk.
    let p = buf.nth(1).unwrap();
    assert_eq!(collect(p.a, p.b), b"abcd");
}

#[test]
fn multipart_cancel_normal_mode() {
    let mut buf = BytearrayRingbuffer::<64>::new();
    let original_unused = buf.bytes_unused();
    let original_count = buf.count();

    let mut mp = buf.push_multipart().unwrap();
    mp.push(b"data that will be discarded").unwrap();
    mp.cancel();

    assert_eq!(buf.count(), original_count);
    assert_eq!(buf.bytes_unused(), original_unused);
}

#[test]
fn multipart_normal_no_room_for_start() {
    // 24 - 8 = 16 max payload; filling with 16 bytes leaves 0 bytes unused.
    let mut buf = BytearrayRingbuffer::<24>::new();
    buf.push(&[0u8; 16]).unwrap(); // fills entire buffer
    assert_eq!(buf.bytes_unused(), 0);
    assert!(buf.push_multipart().is_err());
}

#[test]
fn multipart_force_drops_old_packets() {
    // Buffer: 24 bytes. Push two 2-byte packets (10 bytes each → 20 used, 4 free).
    // push_multipart_force initially pops "AA" to get 8+ bytes for the header reservation.
    // Then push "hello world" (11 bytes) needs 11+4=15 bytes; only 10 available after the
    // header reservation, so "BB" is also dropped, leaving 24 bytes free.
    let mut buf = BytearrayRingbuffer::<24>::new();
    buf.push(b"AA").unwrap(); // 10 bytes
    buf.push(b"BB").unwrap(); // 10 bytes → 20 bytes used, 4 bytes free
    assert_eq!(buf.count(), 2);

    let mut mp = buf.push_multipart_force();
    mp.push(b"hello world").unwrap(); // 11+4=15 needed; forces drop of both old packets
    drop(mp);

    assert_eq!(buf.count(), 1);
    let p = buf.pop_front().unwrap();
    assert_eq!(collect(p.a, p.b), b"hello world");
}

#[test]
fn multipart_force_cancel_drops_are_permanent() {
    // Same setup as multipart_force_drops_old_packets but we cancel instead of committing.
    let mut buf = BytearrayRingbuffer::<24>::new();
    buf.push(b"AA").unwrap();
    buf.push(b"BB").unwrap();
    let count_before = buf.count(); // 2

    let mut mp = buf.push_multipart_force();
    mp.push(b"hello world").unwrap(); // forces drops of both "AA" and "BB"
    mp.cancel(); // discard the new packet

    // New packet is not committed, but both dropped packets are permanently gone.
    assert!(buf.count() < count_before);
    assert_eq!(buf.count(), 0);
}

#[test]
fn multipart_push_after_multipart() {
    let mut buf = BytearrayRingbuffer::<64>::new();
    {
        let mut mp = buf.push_multipart().unwrap();
        mp.push(b"first").unwrap();
    }
    buf.push(b"second").unwrap();

    assert_eq!(buf.count(), 2);
    let p = buf.nth(0).unwrap();
    assert_eq!(collect(p.a, p.b), b"first");
    let p = buf.nth(1).unwrap();
    assert_eq!(collect(p.a, p.b), b"second");
}

#[test]
fn multipart_force_max_payload() {
    // Push exactly N-8 bytes in force mode.
    const N: usize = 32;
    let mut buf = BytearrayRingbuffer::<N>::new();
    buf.push(b"old").unwrap(); // will be displaced

    let payload: Vec<u8> = (0..((N - 8) as u8)).collect();
    let mut mp = buf.push_multipart_force();
    mp.push(&payload).unwrap();
    drop(mp);

    assert_eq!(buf.count(), 1);
    let p = buf.pop_front().unwrap();
    assert_eq!(collect(p.a, p.b), payload);
}

#[test]
fn multipart_wraparound_all_offsets() {
    const N: usize = 48;
    for offset in 0..N {
        let mut buf = at_offset::<N>(offset);

        // Push a normal packet first.
        buf.push(b"prefix").unwrap();

        // Multi-part push with two chunks that together wrap the ring.
        let mut mp = buf.push_multipart().unwrap();
        mp.push(b"foo").unwrap();
        mp.push(b"bar").unwrap();
        drop(mp);

        // Push another after.
        buf.push(b"suffix").unwrap();

        assert_eq!(buf.count(), 3);
        let p = buf.nth(0).unwrap();
        assert_eq!(collect(p.a, p.b), b"prefix");
        let p = buf.nth(1).unwrap();
        assert_eq!(collect(p.a, p.b), b"foobar");
        let p = buf.nth(2).unwrap();
        assert_eq!(collect(p.a, p.b), b"suffix");
    }
}

// ---- pop_front / empty / count lifecycle ----

#[test]
fn pop_front_empty_returns_none() {
    let mut buf = BytearrayRingbuffer::<32>::new();
    assert_eq!(buf.pop_front(), None);
}

#[test]
fn empty_and_count_lifecycle() {
    let mut buf = BytearrayRingbuffer::<32>::new();

    // Fresh buffer is empty with count 0.
    assert!(buf.empty());
    assert_eq!(buf.count(), 0);

    buf.push(b"a").unwrap();
    assert!(!buf.empty());
    assert_eq!(buf.count(), 1);

    buf.push(b"b").unwrap();
    assert!(!buf.empty());
    assert_eq!(buf.count(), 2);

    buf.pop_front().unwrap();
    assert!(!buf.empty());
    assert_eq!(buf.count(), 1);

    buf.pop_front().unwrap();
    assert!(buf.empty());
    assert_eq!(buf.count(), 0);

    // pop on now-empty buffer returns None.
    assert_eq!(buf.pop_front(), None);
}

#[test]
fn default_creates_empty_buffer() {
    let buf = BytearrayRingbuffer::<32>::default();
    assert!(buf.empty());
    assert_eq!(buf.count(), 0);
    assert_eq!(buf.free(), 32 - 8);
}

// ---- oversized payload rejection ----

#[test]
fn push_oversized_returns_error() {
    let mut buf = BytearrayRingbuffer::<16>::new();
    // Maximum payload is N-8 = 8 bytes; 9 bytes must be rejected.
    let oversized = [0u8; 9];
    assert!(buf.push(&oversized).is_err());
    // Buffer must remain unmodified.
    assert!(buf.empty());
}

#[test]
fn push_force_oversized_returns_error() {
    let mut buf = BytearrayRingbuffer::<16>::new();
    // Even push_force must reject payloads larger than N-8.
    let oversized = [0u8; 9];
    assert!(buf.push_force(&oversized).is_err());
    assert!(buf.empty());
}

// ---- iter / iter_backwards on empty buffer ----

#[test]
fn iter_empty_buffer() {
    let buf = BytearrayRingbuffer::<32>::new();
    assert_eq!(buf.iter().next(), None);
}

#[test]
fn iter_backwards_empty_buffer() {
    let buf = BytearrayRingbuffer::<32>::new();
    assert_eq!(buf.iter_backwards().next(), None);
}

// ---- nth / nth_reverse ----

#[test]
fn nth_empty_returns_none() {
    let buf = BytearrayRingbuffer::<32>::new();
    assert_eq!(buf.nth(0), None);
}

#[test]
fn nth_out_of_bounds_returns_none() {
    let buf = {
        let mut b = BytearrayRingbuffer::<64>::new();
        b.push(b"x").unwrap();
        b.push(b"y").unwrap();
        b
    };
    assert_eq!(buf.nth(2), None);
    assert_eq!(buf.nth(100), None);
}

#[test]
fn nth_reverse_basic() {
    let mut buf = BytearrayRingbuffer::<64>::new();
    buf.push(b"oldest").unwrap();
    buf.push(b"middle").unwrap();
    buf.push(b"newest").unwrap();

    let p = buf.nth_reverse(0).unwrap();
    assert_eq!(collect(p.a, p.b), b"newest");
    let p = buf.nth_reverse(1).unwrap();
    assert_eq!(collect(p.a, p.b), b"middle");
    let p = buf.nth_reverse(2).unwrap();
    assert_eq!(collect(p.a, p.b), b"oldest");
}

#[test]
fn nth_reverse_empty_returns_none() {
    let buf = BytearrayRingbuffer::<32>::new();
    assert_eq!(buf.nth_reverse(0), None);
}

#[test]
fn nth_reverse_out_of_bounds_returns_none() {
    let buf = {
        let mut b = BytearrayRingbuffer::<64>::new();
        b.push(b"only").unwrap();
        b
    };
    assert_eq!(buf.nth_reverse(1), None);
    assert_eq!(buf.nth_reverse(99), None);
}

// ---- nth_contiguous ----

#[test]
fn nth_contiguous_empty_returns_none() {
    let mut buf = BytearrayRingbuffer::<32>::new();
    assert_eq!(buf.nth_contiguous(0), None);
}

#[test]
fn nth_contiguous_n0_no_rotation() {
    // Packet at the beginning of the buffer – no rotation needed.
    let mut buf = BytearrayRingbuffer::<64>::new();
    buf.push(b"hello").unwrap();
    buf.push(b"world").unwrap();
    // n=0 is the oldest packet, which starts at index 4 (after its 4-byte header).
    // It is contiguous, so the buffer should not be rotated.
    let slice = buf.nth_contiguous(0).unwrap();
    assert_eq!(slice, b"hello");
    // Remaining packets are still accessible.
    let slice = buf.nth_contiguous(1).unwrap();
    assert_eq!(slice, b"world");
}

#[test]
fn nth_contiguous_called_twice() {
    // After the first nth_contiguous triggers a rotation, the second call must
    // still return the correct data for the (now relocated) packet.
    const N: usize = 48;
    for offset in 0..N {
        let mut buf = at_offset::<N>(offset);

        buf.push(b"alpha").unwrap();
        buf.push(b"beta").unwrap();
        buf.push(b"gamma").unwrap();

        // First call (may or may not trigger a rotation depending on offset).
        let slice = buf.nth_contiguous(1).unwrap();
        assert_eq!(slice, b"beta");

        // Second call on the same (possibly rotated) buffer.
        let slice = buf.nth_contiguous(2).unwrap();
        assert_eq!(slice, b"gamma");

        // Forward iteration must still be consistent.
        let payloads: Vec<Vec<u8>> = buf
            .iter()
            .map(|p| {
                let mut v = p.a.to_vec();
                v.extend_from_slice(p.b);
                v
            })
            .collect();
        assert_eq!(payloads[0], b"alpha");
        assert_eq!(payloads[1], b"beta");
        assert_eq!(payloads[2], b"gamma");
    }
}

// ---- free() edge cases ----

#[test]
fn free_returns_zero_when_full() {
    // N=32, two packets of 8-byte payload each fill the buffer exactly (2×16 = 32).
    let mut buf = BytearrayRingbuffer::<32>::new();
    buf.push(b"01234567").unwrap();
    buf.push(b"01234567").unwrap();
    assert_eq!(buf.free(), 0);
    // A third push must fail.
    assert!(buf.push(b"x").is_err());
}

// ---- push_force dropping multiple packets ----

#[test]
fn push_force_drops_multiple_packets() {
    // N=32; fill with three 1-byte packets (each 9 bytes → 27 bytes used, 5 bytes free).
    // A 16-byte payload needs 24 bytes (16 + 8 overhead).  Dropping "a" frees 9 → 14 free
    // (still < 24); dropping "b" → 23 free (still < 24); dropping "c" → 32 free (≥ 24).
    // So all three old packets are evicted and only the new one survives.
    let mut buf = BytearrayRingbuffer::<32>::new();
    buf.push(b"a").unwrap();
    buf.push(b"b").unwrap();
    buf.push(b"c").unwrap();
    assert_eq!(buf.count(), 3);

    let payload = b"0123456789abcdef"; // 16 bytes
    buf.push_force(payload).unwrap();

    // Only the newly pushed packet must survive.
    assert_eq!(buf.count(), 1);
    let p = buf.pop_front().unwrap();
    assert_eq!(collect(p.a, p.b), payload);
}

// ---- multipart: total payload exceeds N-8 ----

#[test]
fn multipart_push_total_exceeds_max_returns_error() {
    // Buffer size 16: max payload = 16-8 = 8 bytes.
    // Push 5 bytes then try to push 4 more (total 9 > 8) – must fail.
    let mut buf = BytearrayRingbuffer::<16>::new();
    let mut mp = buf.push_multipart().unwrap();
    mp.push(b"abcde").unwrap(); // 5 bytes – fine
    let err = mp.push(b"wxyz"); // would bring total to 9 > 8
    assert!(err.is_err());
    drop(mp); // commits the 5-byte partial packet
    assert_eq!(buf.count(), 1);
    let p = buf.pop_front().unwrap();
    assert_eq!(collect(p.a, p.b), b"abcde");
}

// ---- push_multipart_force starting from a completely full buffer ----

#[test]
fn multipart_force_full_buffer_start() {
    // N=16, fill with the maximum-size single packet (8-byte payload).
    // push_multipart_force must drop it to reserve space for the header.
    let mut buf = BytearrayRingbuffer::<16>::new();
    buf.push(&[0u8; 8]).unwrap(); // fills the entire 16-byte buffer
    assert_eq!(buf.bytes_unused(), 0);

    let mut mp = buf.push_multipart_force();
    mp.push(b"hi").unwrap();
    drop(mp);

    assert_eq!(buf.count(), 1);
    let p = buf.pop_front().unwrap();
    assert_eq!(collect(p.a, p.b), b"hi");
}

// ---- Packet::copy_into ----

#[test]
fn copy_into_contiguous() {
    // Packet starting at offset 0: payload lies in a single contiguous slice (b is empty).
    let mut buf = BytearrayRingbuffer::<64>::new();
    buf.push(b"hello").unwrap();
    let p = buf.pop_front().unwrap();
    assert!(p.b.is_empty());
    let mut out = [0u8; 5];
    p.copy_into(&mut out);
    assert_eq!(&out, b"hello");
}

#[test]
fn copy_into_wrapped() {
    // N=16, head=tail=9: a 5-byte payload wraps (3 bytes at end, 2 bytes at start).
    const N: usize = 16;
    let mut buf = at_offset::<N>(9);
    buf.push(b"abcde").unwrap();
    let p = buf.pop_front().unwrap();
    assert!(!p.b.is_empty(), "expected a wrapped packet");
    let mut out = [0u8; 5];
    p.copy_into(&mut out);
    assert_eq!(&out, b"abcde");
}

// ---- Packet::copy_part_into ----

#[test]
fn copy_part_into_in_a() {
    // Range fully within the first slice.
    // N=16, head=tail=9: a="abc" (3 bytes), b="de" (2 bytes).
    const N: usize = 16;
    let mut buf = at_offset::<N>(9);
    buf.push(b"abcde").unwrap();
    let p = buf.pop_front().unwrap();
    assert!(!p.b.is_empty(), "expected a wrapped packet");
    let mut out = [0u8; 2];
    p.copy_part_into(0..2, &mut out);
    assert_eq!(&out, b"ab");
}

#[test]
fn copy_part_into_in_b() {
    // Range fully within the second slice.
    // a="abc" (3 bytes), b="de" (2 bytes); range 3..4 selects "d".
    const N: usize = 16;
    let mut buf = at_offset::<N>(9);
    buf.push(b"abcde").unwrap();
    let p = buf.pop_front().unwrap();
    let mut out = [0u8; 1];
    p.copy_part_into(3..4, &mut out);
    assert_eq!(&out, b"d");
}

#[test]
fn copy_part_into_spanning() {
    // Range spanning the boundary between a and b.
    // a="abc" (3 bytes), b="de" (2 bytes); range 1..4 selects "bcd".
    const N: usize = 16;
    let mut buf = at_offset::<N>(9);
    buf.push(b"abcde").unwrap();
    let p = buf.pop_front().unwrap();
    let mut out = [0u8; 3];
    p.copy_part_into(1..4, &mut out);
    assert_eq!(&out, b"bcd");
}

// ---- Packet::copy_part_into (non-Range variants) ----

#[test]
fn copy_part_into_range_inclusive() {
    // 1..=3 selects "bcd" from "abcde".
    let mut buf = BytearrayRingbuffer::<64>::new();
    buf.push(b"abcde").unwrap();
    let p = buf.pop_front().unwrap();
    let mut out = [0u8; 3];
    p.copy_part_into(1..=3, &mut out);
    assert_eq!(&out, b"bcd");
}

#[test]
fn copy_part_into_range_from() {
    // 3.. selects "de" from "abcde".
    let mut buf = BytearrayRingbuffer::<64>::new();
    buf.push(b"abcde").unwrap();
    let p = buf.pop_front().unwrap();
    let mut out = [0u8; 2];
    p.copy_part_into(3.., &mut out);
    assert_eq!(&out, b"de");
}

#[test]
fn copy_part_into_range_to() {
    // ..3 selects "abc" from "abcde".
    let mut buf = BytearrayRingbuffer::<64>::new();
    buf.push(b"abcde").unwrap();
    let p = buf.pop_front().unwrap();
    let mut out = [0u8; 3];
    p.copy_part_into(..3, &mut out);
    assert_eq!(&out, b"abc");
}

#[test]
fn copy_part_into_range_full() {
    // .. selects the entire payload "abcde".
    let mut buf = BytearrayRingbuffer::<64>::new();
    buf.push(b"abcde").unwrap();
    let p = buf.pop_front().unwrap();
    let mut out = [0u8; 5];
    p.copy_part_into(.., &mut out);
    assert_eq!(&out, b"abcde");
}

#[test]
fn copy_part_into_range_to_inclusive() {
    // ..=2 selects "abc" from "abcde".
    let mut buf = BytearrayRingbuffer::<64>::new();
    buf.push(b"abcde").unwrap();
    let p = buf.pop_front().unwrap();
    let mut out = [0u8; 3];
    p.copy_part_into(..=2, &mut out);
    assert_eq!(&out, b"abc");
}

// ---- Packet::len / is_empty ----

#[test]
fn packet_len_contiguous() {
    let mut buf = BytearrayRingbuffer::<64>::new();
    buf.push(b"hello").unwrap();
    let p = buf.pop_front().unwrap();
    assert_eq!(p.len(), 5);
    assert!(!p.is_empty());
}

#[test]
fn packet_len_wrapped() {
    const N: usize = 16;
    let mut buf = at_offset::<N>(9);
    buf.push(b"abcde").unwrap();
    let p = buf.pop_front().unwrap();
    assert!(!p.b.is_empty(), "expected a wrapped packet");
    assert_eq!(p.len(), 5);
    assert!(!p.is_empty());
}

#[test]
fn packet_len_empty_payload() {
    let mut buf = BytearrayRingbuffer::<64>::new();
    buf.push(b"").unwrap();
    let p = buf.pop_front().unwrap();
    assert_eq!(p.len(), 0);
    assert!(p.is_empty());
}
