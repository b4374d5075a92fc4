use core::ops::Bound;
use std::collections::VecDeque;

use bytearray_ringbuffer::{BytearrayRingbuffer, Packet};

fn payload(p: &Packet<'_>) -> Vec<u8> {
    let mut v = Vec::new();
    p.extend_into(&mut v);
    v
}

fn payloads<const N: usize>(buf: &BytearrayRingbuffer<N>) -> Vec<Vec<u8>> {
    buf.iter().map(|p| payload(&p)).collect()
}

/// A buffer of 16 bytes in which "abcde" lies as "abc" and "de".
fn wrapped() -> BytearrayRingbuffer<16> {
    let mut buf = BytearrayRingbuffer::<16>::new();
    buf.push(b"x").unwrap();
    buf.pop_front().unwrap();
    buf.push(b"abcde").unwrap();
    buf
}

#[test]
fn usage_example() {
    let mut buffer = BytearrayRingbuffer::<64>::new();
    buffer.push(b"hello world").unwrap();
    buffer.push(b"").unwrap();
    buffer.push(b"testing").unwrap();
    assert_eq!(buffer.count(), 3);

    let p = buffer.pop_front().unwrap();
    assert_eq!(p.len(), 11);
    let mut out = vec![0u8; p.len()];
    p.copy_into(&mut out);
    assert_eq!(out, b"hello world");

    let mut collected = Vec::new();
    for p in buffer.iter() {
        p.extend_into(&mut collected);
    }
    assert_eq!(collected, b"testing");
}

#[test]
fn usage_example_multipart() {
    let mut buffer = BytearrayRingbuffer::<64>::new();
    let mut mp = buffer.push_multipart().unwrap();
    mp.push(b"hello").unwrap();
    mp.push(b" world").unwrap();
    drop(mp);
    assert_eq!(buffer.count(), 1);

    let mut mp = buffer.push_multipart().unwrap();
    mp.push(b"discarded").unwrap();
    mp.cancel();
    assert_eq!(buffer.count(), 1);
    assert_eq!(payloads(&buffer), vec![b"hello world".to_vec()]);
}

#[test]
fn new_buffer_is_unused() {
    let buf = BytearrayRingbuffer::<9>::new();
    assert!(buf.empty());
    assert_eq!(buf.bytes_unused(), 9);
    assert_eq!(buf.free(), 1);
    assert_eq!(buf.head(), 0);
    assert_eq!(buf.tail(), 0);
}

#[test]
fn first_in_first_out() {
    let mut buf = BytearrayRingbuffer::<32>::new();
    let mut expected: VecDeque<Vec<u8>> = VecDeque::new();
    for round in 0..100u8 {
        let data = vec![round; (round % 5) as usize];
        buf.push(&data).unwrap();
        expected.push_back(data);
        if expected.len() == 2 {
            let p = buf.pop_front().unwrap();
            assert_eq!(Some(payload(&p)), expected.pop_front());
        }
    }
}

#[test]
fn lengths_of_every_size_are_read_back() {
    let mut buf = BytearrayRingbuffer::<140000>::new();
    for len in [0usize, 1, 255, 256, 300, 65535, 65536, 70001] {
        let data: Vec<u8> = (0..len).map(|k| (k % 251) as u8).collect();
        buf.push_force(&data).unwrap();
        let p = buf.nth_reverse(0).unwrap();
        assert_eq!(p.len(), len);
        assert_eq!(payload(&p), data);
        let n = buf.count() - 1;
        let p = buf.nth(n).unwrap();
        assert_eq!(payload(&p), data);
    }
}

#[test]
fn each_packet_takes_its_payload_and_eight_bytes() {
    let mut buf = BytearrayRingbuffer::<64>::new();
    buf.push(b"abc").unwrap();
    assert_eq!(buf.bytes_unused(), 64 - 3 - 8);
    buf.push(b"").unwrap();
    assert_eq!(buf.bytes_unused(), 64 - 3 - 8 - 8);
    buf.pop_front().unwrap();
    assert_eq!(buf.bytes_unused(), 64 - 8);
}

#[test]
fn free_is_the_largest_payload() {
    let mut buf = BytearrayRingbuffer::<40>::new();
    buf.push(b"abcd").unwrap();
    let free = buf.free();
    assert_eq!(free, 20);
    assert!(buf.push(&vec![1u8; free + 1]).is_err());
    assert_eq!(buf.count(), 1);
    buf.push(&vec![1u8; free]).unwrap();
    assert_eq!(buf.bytes_unused(), 0);
    assert_eq!(buf.free(), 0);
}

#[test]
fn free_is_zero_where_not_even_an_empty_packet_fits() {
    let mut buf = BytearrayRingbuffer::<20>::new();
    buf.push(b"12345").unwrap();
    assert_eq!(buf.bytes_unused(), 7);
    assert_eq!(buf.free(), 0);
    assert!(buf.push(b"").is_err());
    assert!(buf.push_multipart().is_err());
}

#[test]
fn refused_push_changes_nothing() {
    let mut buf = BytearrayRingbuffer::<24>::new();
    buf.push(b"keep").unwrap();
    assert!(buf.push(b"12345").is_err());
    assert!(buf.push_force(&[0u8; 17]).is_err());
    assert_eq!(payloads(&buf), vec![b"keep".to_vec()]);
    assert_eq!(buf.bytes_unused(), 12);
}

#[test]
fn force_drops_no_more_than_needed() {
    let mut buf = BytearrayRingbuffer::<40>::new();
    buf.push(b"a").unwrap();
    buf.push(b"b").unwrap();
    buf.push(b"c").unwrap();
    buf.push(b"d").unwrap();
    assert_eq!(buf.bytes_unused(), 4);
    buf.push_force(b"12345").unwrap();
    assert_eq!(
        payloads(&buf),
        vec![b"b".to_vec(), b"c".to_vec(), b"d".to_vec(), b"12345".to_vec()]
    );
    assert_eq!(buf.bytes_unused(), 0);
}

#[test]
fn force_does_what_push_does_where_it_fits() {
    let mut a = BytearrayRingbuffer::<40>::new();
    let mut b = BytearrayRingbuffer::<40>::new();
    for data in [&b"one"[..], b"two", b"six"] {
        a.push(data).unwrap();
        b.push_force(data).unwrap();
    }
    assert_eq!(payloads(&a), payloads(&b));
    assert_eq!((a.head(), a.tail()), (b.head(), b.tail()));
}

#[test]
fn parts_split_at_the_end_of_the_array() {
    let buf = wrapped();
    assert_eq!(buf.tail(), 9);
    assert_eq!(buf.head(), 6);
    let p = buf.nth(0).unwrap();
    assert_eq!(p.a, b"abc");
    assert_eq!(p.b, b"de");
    assert_eq!(buf.nth_reverse(0), buf.nth(0));
    assert_eq!(buf.iter().next(), buf.nth(0));
}

#[test]
fn payload_that_ends_with_the_array_is_contiguous() {
    // The frame begins at 5, so the payload fills the array to its end.
    let mut buf = BytearrayRingbuffer::<16>::new();
    buf.push(b"").unwrap();
    buf.pop_front().unwrap();
    buf.push(b"12345").unwrap();
    buf.pop_front().unwrap();
    assert_eq!(buf.tail(), 5);
    buf.push(b"abcdefg").unwrap();
    let p = buf.pop_front().unwrap();
    assert_eq!(p.a, b"abcdefg");
    assert!(p.b.is_empty());
}

#[test]
fn packet_can_fill_the_whole_array() {
    for offset in 0..24usize {
        let mut buf = BytearrayRingbuffer::<24>::new();
        for _ in 0..offset {
            // 17 and 8 bytes: one more than the array holds.
            buf.push(&[9u8; 9]).unwrap();
            buf.pop_front().unwrap();
            buf.push(b"").unwrap();
            buf.pop_front().unwrap();
        }
        assert_eq!(buf.head(), offset);
        let data: Vec<u8> = (0..16u8).collect();
        buf.push(&data).unwrap();
        assert_eq!(buf.head(), buf.tail());
        assert_eq!(buf.bytes_unused(), 0);
        assert_eq!(buf.nth_contiguous(0), Some(&data[..]));
        assert_eq!(payload(&buf.pop_front().unwrap()), data);
        assert!(buf.empty());
        assert_eq!(buf.bytes_unused(), 24);
    }
}

#[test]
fn contiguous_rotates_only_where_needed() {
    let mut buf = wrapped();
    assert_eq!(buf.nth_contiguous(0), Some(&b"abcde"[..]));
    // The payload began at 13 and now begins at 0.
    assert_eq!(buf.tail(), 12);
    assert_eq!(buf.head(), 9);
    assert_eq!(buf.count(), 1);
    assert_eq!(buf.bytes_unused(), 3);
    let p = buf.nth(0).unwrap();
    assert_eq!(p.a, b"abcde");
    assert!(p.b.is_empty());
    assert_eq!(buf.nth_contiguous(0), Some(&b"abcde"[..]));
    assert_eq!(buf.tail(), 12);
    assert_eq!(buf.nth_contiguous(1), None);
}

#[test]
fn backwards_is_the_reverse_of_forwards() {
    let mut buf = BytearrayRingbuffer::<40>::new();
    for data in [&b"one"[..], b"", b"three", b"four", b"5"] {
        buf.push_force(data).unwrap();
    }
    let mut backwards: Vec<Packet<'_>> = buf.iter_backwards().collect();
    backwards.reverse();
    let forwards: Vec<Packet<'_>> = buf.iter().collect();
    assert_eq!(forwards, backwards);
    assert_eq!(forwards.len(), buf.count());
    for n in 0..buf.count() {
        assert_eq!(buf.nth(n), buf.nth_reverse(buf.count() - 1 - n));
        assert_eq!(buf.nth(n), buf.iter().nth(n));
        assert_eq!(buf.nth_reverse(n), buf.iter_backwards().nth(n));
    }
}

#[test]
fn iteration_yields_what_popping_yields() {
    let mut buf = BytearrayRingbuffer::<40>::new();
    for data in [&b"one"[..], b"two", b"three", b"four"] {
        buf.push_force(data).unwrap();
    }
    let iterated: Vec<(Vec<u8>, Vec<u8>)> =
        buf.iter().map(|p| (p.a.to_vec(), p.b.to_vec())).collect();
    let mut popped = Vec::new();
    while let Some(p) = buf.pop_front() {
        popped.push((p.a.to_vec(), p.b.to_vec()));
    }
    assert_eq!(iterated, popped);
}

#[test]
fn multipart_is_one_push_of_the_pieces_joined() {
    let mut a = BytearrayRingbuffer::<48>::new();
    let mut b = BytearrayRingbuffer::<48>::new();
    a.push(b"before").unwrap();
    b.push(b"before").unwrap();
    a.push(b"foobarbaz").unwrap();
    let mut mp = b.push_multipart().unwrap();
    mp.push(b"foo").unwrap();
    mp.push(b"").unwrap();
    mp.push(b"barbaz").unwrap();
    mp.commit();
    assert_eq!(payloads(&a), payloads(&b));
    assert_eq!((a.head(), a.tail()), (b.head(), b.tail()));
}

#[test]
fn multipart_force_is_one_forced_push_of_the_pieces_joined() {
    let mut a = BytearrayRingbuffer::<40>::new();
    let mut b = BytearrayRingbuffer::<40>::new();
    for data in [&b"one"[..], b"two", b"three"] {
        a.push(data).unwrap();
        b.push(data).unwrap();
    }
    a.push_force(b"0123456789").unwrap();
    {
        let mut mp = b.push_multipart_force();
        mp.push(b"01234").unwrap();
        mp.push(b"56789").unwrap();
    }
    assert_eq!(payloads(&a), payloads(&b));
    assert_eq!((a.head(), a.tail()), (b.head(), b.tail()));
    assert_eq!(payloads(&a), vec![b"three".to_vec(), b"0123456789".to_vec()]);
}

#[test]
fn multipart_accepts_up_to_the_room_there_is() {
    let mut buf = BytearrayRingbuffer::<32>::new();
    buf.push(b"abcd").unwrap();
    let mut mp = buf.push_multipart().unwrap();
    mp.push(b"0123456").unwrap();
    assert!(mp.push(b"789ab").is_ok());
    assert!(mp.push(b"c").is_err());
    assert!(mp.push(b"").is_ok());
    mp.commit();
    assert_eq!(buf.bytes_unused(), 0);
    assert_eq!(payload(&buf.nth(1).unwrap()), b"0123456789ab");
}

#[test]
fn multipart_force_refuses_only_what_can_never_fit() {
    let mut buf = BytearrayRingbuffer::<24>::new();
    buf.push(b"old").unwrap();
    let mut mp = buf.push_multipart_force();
    mp.push(&[1u8; 10]).unwrap();
    assert!(mp.push(&[2u8; 7]).is_err());
    mp.push(&[3u8; 6]).unwrap();
    mp.commit();
    assert_eq!(buf.count(), 1);
    assert_eq!(buf.nth(0).unwrap().len(), 16);
}

#[test]
fn cancel_leaves_the_rest_as_it_was() {
    let mut buf = BytearrayRingbuffer::<40>::new();
    buf.push(b"one").unwrap();
    buf.push(b"two").unwrap();
    let before = (buf.head(), buf.tail(), buf.bytes_unused());
    let mut mp = buf.push_multipart().unwrap();
    mp.push(b"0123456789").unwrap();
    mp.cancel();
    assert_eq!((buf.head(), buf.tail(), buf.bytes_unused()), before);
    assert_eq!(payloads(&buf), vec![b"one".to_vec(), b"two".to_vec()]);

    let mut mp = buf.push_multipart_force();
    mp.push(b"0123456789abcdef").unwrap();
    mp.cancel();
    assert_eq!(payloads(&buf), vec![b"two".to_vec()]);
    assert_eq!(buf.bytes_unused(), 29);
}

#[test]
fn part_by_a_pair_of_bounds() {
    let buf = wrapped();
    let p = buf.nth(0).unwrap();
    let mut out = [0u8; 3];
    p.copy_part_into((Bound::Excluded(0), Bound::Included(3)), &mut out);
    assert_eq!(&out, b"bcd");
    p.copy_part_into((Bound::Unbounded, Bound::Excluded(3)), &mut out);
    assert_eq!(&out, b"abc");
    p.copy_part_into((Bound::Included(2), Bound::Unbounded), &mut out);
    assert_eq!(&out, b"cde");
    p.copy_part_into((Bound::Included(&1), Bound::Excluded(&4)), &mut out);
    assert_eq!(&out, b"bcd");
    p.copy_part_into(&2..&5, &mut out);
    assert_eq!(&out, b"cde");
    p.copy_part_into(&0..=&2, &mut out);
    assert_eq!(&out, b"abc");
}

#[test]
fn part_across_the_split_by_every_kind_of_range() {
    let buf = wrapped();
    let p = buf.nth(0).unwrap();
    let mut two = [0u8; 2];
    p.copy_part_into(2..4, &mut two);
    assert_eq!(&two, b"cd");
    p.copy_part_into(2..=3, &mut two);
    assert_eq!(&two, b"cd");
    p.copy_part_into(3.., &mut two);
    assert_eq!(&two, b"de");
    p.copy_part_into(..2, &mut two);
    assert_eq!(&two, b"ab");
    p.copy_part_into(..=1, &mut two);
    assert_eq!(&two, b"ab");
    let mut five = [0u8; 5];
    p.copy_part_into(.., &mut five);
    assert_eq!(&five, b"abcde");
    let mut none = [0u8; 0];
    p.copy_part_into(5..5, &mut none);
    p.copy_part_into(3..3, &mut none);
}

#[test]
fn extend_appends_behind_what_is_there() {
    let buf = wrapped();
    let p = buf.nth(0).unwrap();
    let mut v = b"> ".to_vec();
    p.extend_into(&mut v);
    assert_eq!(v, b"> abcde");
    let mut d: VecDeque<u8> = VecDeque::new();
    d.push_back(b'>');
    p.extend_into(&mut d);
    assert_eq!(d.into_iter().collect::<Vec<u8>>(), b">abcde");
}
