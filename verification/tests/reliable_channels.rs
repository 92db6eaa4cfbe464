use bytes::Bytes;
use far_from_fatality::packet::{ChannelError, Packet, Slice, SLICE_SIZE};
use far_from_fatality::reliable::{ReceiveChannelReliable, SendChannelReliable};
use far_from_fatality::payload::payload_len;
use far_from_fatality::slice_constructor::SliceConstructor;

fn pattern(len: usize) -> Vec<u8> {
    (0..len).map(|i| (i % 251) as u8).collect()
}

#[test]
fn small_message_goes_out_in_one_packet() {
    let mut channel = SendChannelReliable::new(2, 100, 10_000);
    assert_eq!(channel.send_message(Bytes::from_static(b"hello")), Ok(()));
    let mut sequence = 7u64;
    let mut available = 5000u64;
    let packets = channel.get_packets_to_send(&mut sequence, &mut available, 1000);
    assert_eq!(packets.len(), 1);
    match &packets[0] {
        Packet::SmallReliable { sequence, channel_id, messages } => {
            assert_eq!(*sequence, 7);
            assert_eq!(*channel_id, 2);
            assert_eq!(messages.len(), 1);
            assert_eq!(messages[0].0, 0);
            assert_eq!(&messages[0].1[..], b"hello");
        }
        _ => panic!("expected a packet of small messages"),
    }
    assert_eq!(sequence, 8);
    assert_eq!(available, 4995);
}

#[test]
fn small_message_resent_only_after_resend_time() {
    let mut channel = SendChannelReliable::new(0, 100, 10_000);
    channel.send_message(Bytes::from_static(b"abc")).unwrap();
    let mut sequence = 0u64;
    let mut available = 5000u64;
    assert_eq!(channel.get_packets_to_send(&mut sequence, &mut available, 1000).len(), 1);
    assert!(channel.get_packets_to_send(&mut sequence, &mut available, 1099).is_empty());
    assert_eq!(channel.get_packets_to_send(&mut sequence, &mut available, 1100).len(), 1);
    assert_eq!(sequence, 2);
}

#[test]
fn small_message_skipped_without_bytes() {
    let mut channel = SendChannelReliable::new(0, 100, 10_000);
    channel.send_message(Bytes::from_static(b"abcdef")).unwrap();
    let mut sequence = 0u64;
    let mut available = 5u64;
    assert!(channel.get_packets_to_send(&mut sequence, &mut available, 0).is_empty());
    assert_eq!(available, 5);
    assert_eq!(sequence, 0);
}

#[test]
fn small_messages_share_a_packet_in_id_order() {
    let mut channel = SendChannelReliable::new(1, 100, 10_000);
    channel.send_message(Bytes::from_static(b"one")).unwrap();
    channel.send_message(Bytes::from_static(b"two")).unwrap();
    let mut sequence = 0u64;
    let mut available = 5000u64;
    let packets = channel.get_packets_to_send(&mut sequence, &mut available, 0);
    assert_eq!(packets.len(), 1);
    match &packets[0] {
        Packet::SmallReliable { messages, .. } => {
            assert_eq!(messages.len(), 2);
            assert_eq!(messages[0].0, 0);
            assert_eq!(&messages[0].1[..], b"one");
            assert_eq!(messages[1].0, 1);
            assert_eq!(&messages[1].1[..], b"two");
        }
        _ => panic!("expected a packet of small messages"),
    }
}

#[test]
fn full_small_packet_goes_out_before_the_next_message() {
    let mut channel = SendChannelReliable::new(1, 100, 10_000);
    channel.send_message(Bytes::from(vec![1u8; 700])).unwrap();
    channel.send_message(Bytes::from(vec![2u8; 700])).unwrap();
    let mut sequence = 0u64;
    let mut available = 5000u64;
    let packets = channel.get_packets_to_send(&mut sequence, &mut available, 0);
    assert_eq!(packets.len(), 2);
    assert_eq!(sequence, 2);
    assert_eq!(available, 3600);
}

#[test]
fn send_refused_over_memory_limit() {
    let mut channel = SendChannelReliable::new(0, 100, 4);
    assert_eq!(
        channel.send_message(Bytes::from_static(b"hello")),
        Err(ChannelError::ReliableChannelMaxMemoryReached)
    );
    let mut sequence = 0u64;
    let mut available = 5000u64;
    assert!(channel.get_packets_to_send(&mut sequence, &mut available, 0).is_empty());
}

#[test]
fn acknowledged_message_is_not_sent_again() {
    let mut channel = SendChannelReliable::new(0, 100, 10);
    channel.send_message(Bytes::from_static(b"hello")).unwrap();
    channel.process_message_ack(0);
    let mut sequence = 0u64;
    let mut available = 5000u64;
    assert!(channel.get_packets_to_send(&mut sequence, &mut available, 0).is_empty());
    // the memory is free again
    assert_eq!(channel.send_message(Bytes::from_static(b"0123456789")), Ok(()));
    // an unknown id changes nothing
    channel.process_message_ack(42);
    assert_eq!(channel.get_packets_to_send(&mut sequence, &mut available, 0).len(), 1);
}

#[test]
fn large_message_goes_out_in_slices() {
    let message = pattern(2500);
    let mut channel = SendChannelReliable::new(3, 100, 10_000);
    channel.send_message(Bytes::from(message.clone())).unwrap();
    let mut sequence = 10u64;
    let mut available = 10_000u64;
    let packets = channel.get_packets_to_send(&mut sequence, &mut available, 0);
    assert_eq!(packets.len(), 3);
    for (k, packet) in packets.iter().enumerate() {
        match packet {
            Packet::ReliableSlice { sequence, channel_id, slice } => {
                assert_eq!(*sequence, 10 + k as u64);
                assert_eq!(*channel_id, 3);
                assert_eq!(slice.message_id, 0);
                assert_eq!(slice.slice_index, k);
                assert_eq!(slice.num_slices, 3);
                let end = if k == 2 { 2500 } else { (k + 1) * SLICE_SIZE };
                assert_eq!(&slice.payload[..], &message[k * SLICE_SIZE..end]);
            }
            _ => panic!("expected slices"),
        }
    }
    assert_eq!(sequence, 13);
    assert_eq!(available, 7500);
}

#[test]
fn slices_stop_when_bytes_run_short() {
    let mut channel = SendChannelReliable::new(0, 100, 10_000);
    channel.send_message(Bytes::from(pattern(2500))).unwrap();
    let mut sequence = 0u64;
    let mut available = 1500u64;
    let packets = channel.get_packets_to_send(&mut sequence, &mut available, 0);
    assert_eq!(packets.len(), 1);
    assert_eq!(available, 300);
}

#[test]
fn acknowledged_slices_are_not_sent_again() {
    let mut channel = SendChannelReliable::new(0, 100, 10_000);
    channel.send_message(Bytes::from(pattern(2500))).unwrap();
    channel.process_slice_message_ack(0, 1);
    channel.process_slice_message_ack(0, 1);
    let mut sequence = 0u64;
    let mut available = 10_000u64;
    let packets = channel.get_packets_to_send(&mut sequence, &mut available, 0);
    assert_eq!(packets.len(), 2);
    channel.process_slice_message_ack(0, 0);
    channel.process_slice_message_ack(0, 2);
    assert!(channel.get_packets_to_send(&mut sequence, &mut available, 500).is_empty());
}

#[test]
fn ordered_channel_delivers_in_id_order() {
    let mut channel = ReceiveChannelReliable::new(10_000, true);
    assert_eq!(channel.process_message(Bytes::from_static(b"b"), 1), Ok(()));
    assert_eq!(channel.receive_message(), None);
    assert_eq!(channel.process_message(Bytes::from_static(b"a"), 0), Ok(()));
    assert_eq!(channel.receive_message().as_deref(), Some(&b"a"[..]));
    assert_eq!(channel.receive_message().as_deref(), Some(&b"b"[..]));
    assert_eq!(channel.receive_message(), None);
}

#[test]
fn ordered_channel_ignores_old_and_duplicate_messages() {
    let mut channel = ReceiveChannelReliable::new(10_000, true);
    channel.process_message(Bytes::from_static(b"a"), 0).unwrap();
    channel.process_message(Bytes::from_static(b"other"), 0).unwrap();
    assert_eq!(channel.receive_message().as_deref(), Some(&b"a"[..]));
    channel.process_message(Bytes::from_static(b"again"), 0).unwrap();
    assert_eq!(channel.receive_message(), None);
}

#[test]
fn unordered_channel_delivers_smallest_id_first() {
    let mut channel = ReceiveChannelReliable::new(10_000, false);
    channel.process_message(Bytes::from_static(b"two"), 2).unwrap();
    channel.process_message(Bytes::from_static(b"zero"), 0).unwrap();
    assert_eq!(channel.receive_message().as_deref(), Some(&b"zero"[..]));
    assert_eq!(channel.receive_message().as_deref(), Some(&b"two"[..]));
    assert_eq!(channel.receive_message(), None);
    channel.process_message(Bytes::from_static(b"one"), 1).unwrap();
    assert_eq!(channel.receive_message().as_deref(), Some(&b"one"[..]));
    // ids already received in a row are behind the oldest pending one now
    channel.process_message(Bytes::from_static(b"two again"), 2).unwrap();
    assert_eq!(channel.receive_message(), None);
}

#[test]
fn receive_refused_over_memory_limit() {
    let mut channel = ReceiveChannelReliable::new(3, true);
    assert_eq!(
        channel.process_message(Bytes::from_static(b"hello"), 0),
        Err(ChannelError::ReliableChannelMaxMemoryReached)
    );
    assert_eq!(channel.receive_message(), None);
}

#[test]
fn slices_in_any_order_rebuild_the_message() {
    let message = pattern(2500);
    let mut sender = SendChannelReliable::new(0, 100, 10_000);
    sender.send_message(Bytes::from(message.clone())).unwrap();
    let mut sequence = 0u64;
    let mut available = 10_000u64;
    let mut slices: Vec<Slice> = sender
        .get_packets_to_send(&mut sequence, &mut available, 0)
        .into_iter()
        .map(|p| match p {
            Packet::ReliableSlice { slice, .. } => slice,
            _ => panic!("expected slices"),
        })
        .collect();
    slices.reverse();
    let mut receiver = ReceiveChannelReliable::new(100_000, true);
    for slice in slices {
        assert_eq!(receiver.receive_message(), None);
        assert_eq!(receiver.process_slice(slice), Ok(()));
    }
    assert_eq!(receiver.receive_message().as_deref(), Some(&message[..]));
    assert_eq!(receiver.receive_message(), None);
}

#[test]
fn first_slice_refused_over_memory_limit() {
    let mut receiver = ReceiveChannelReliable::new(2000, true);
    let slice = Slice { message_id: 0, slice_index: 0, num_slices: 2, payload: Bytes::from(pattern(SLICE_SIZE)) };
    assert_eq!(receiver.process_slice(slice), Err(ChannelError::ReliableChannelMaxMemoryReached));
}

#[test]
fn slice_of_wrong_size_refused() {
    let mut receiver = ReceiveChannelReliable::new(100_000, true);
    let slice = Slice { message_id: 0, slice_index: 0, num_slices: 2, payload: Bytes::from(pattern(10)) };
    assert_eq!(receiver.process_slice(slice), Err(ChannelError::InvalidSliceMessage));
}

#[test]
fn constructor_checks_slice_sizes() {
    let mut constructor = SliceConstructor::new(5, 2);
    assert_eq!(
        constructor.process_slice(0, &Bytes::from(pattern(10))),
        Err(ChannelError::InvalidSliceMessage)
    );
    assert_eq!(
        constructor.process_slice(1, &Bytes::from(pattern(SLICE_SIZE + 1))),
        Err(ChannelError::InvalidSliceMessage)
    );
    assert_eq!(constructor.process_slice(1, &Bytes::from(pattern(5))), Ok(None));
    // the same slice again changes nothing
    assert_eq!(constructor.process_slice(1, &Bytes::from(pattern(5))), Ok(None));
    let done = constructor.process_slice(0, &Bytes::from(pattern(SLICE_SIZE))).unwrap().unwrap();
    let mut expected = pattern(SLICE_SIZE);
    expected.extend(pattern(5));
    assert_eq!(&done[..], &expected[..]);
}

#[test]
fn acknowledging_twice_is_acknowledging_once() {
    let mut channel = SendChannelReliable::new(0, 100, 10);
    channel.send_message(Bytes::from_static(b"hello")).unwrap();
    channel.process_message_ack(0);
    channel.process_message_ack(0);
    // the five bytes were freed once: ten more fit, eleven do not
    assert_eq!(
        channel.send_message(Bytes::from_static(b"0123456789a")),
        Err(ChannelError::ReliableChannelMaxMemoryReached)
    );
    assert_eq!(channel.send_message(Bytes::from_static(b"0123456789")), Ok(()));
}

#[test]
fn accepted_messages_take_consecutive_ids() {
    let mut channel = SendChannelReliable::new(0, 100, 8);
    assert_eq!(channel.send_message(Bytes::from_static(b"abc")), Ok(()));
    // refused: 3 + 6 bytes would pass the limit of 8
    assert!(channel.send_message(Bytes::from_static(b"abcdef")).is_err());
    assert_eq!(channel.send_message(Bytes::from_static(b"de")), Ok(()));
    let mut sequence = 0u64;
    let mut available = 5000u64;
    let packets = channel.get_packets_to_send(&mut sequence, &mut available, 0);
    assert_eq!(packets.len(), 1);
    match &packets[0] {
        Packet::SmallReliable { messages, .. } => {
            let ids: Vec<u64> = messages.iter().map(|(id, _)| *id).collect();
            assert_eq!(ids, vec![0, 1]);
            assert_eq!(&messages[1].1[..], b"de");
        }
        _ => panic!("expected a packet of small messages"),
    }
}

#[test]
fn everything_due_goes_out_when_the_allowance_covers_the_queue() {
    let mut channel = SendChannelReliable::new(0, 100, 10_000);
    channel.send_message(Bytes::from_static(b"first")).unwrap();
    channel.send_message(Bytes::from(pattern(2500))).unwrap();
    channel.send_message(Bytes::from_static(b"last")).unwrap();
    let mut sequence = 0u64;
    let mut available = 3 * SLICE_SIZE as u64 + 9;
    let packets = channel.get_packets_to_send(&mut sequence, &mut available, 0);
    let slices: Vec<usize> = packets
        .iter()
        .filter_map(|p| match p {
            Packet::ReliableSlice { slice, .. } => Some(slice.slice_index),
            _ => None,
        })
        .collect();
    assert_eq!(slices, vec![0, 1, 2]);
    let small: Vec<u64> = packets
        .iter()
        .flat_map(|p| match p {
            Packet::SmallReliable { messages, .. } => messages.iter().map(|(id, _)| *id).collect(),
            _ => vec![],
        })
        .collect();
    assert_eq!(small, vec![0, 2]);
    // before the resend time nothing goes out again; after it, all of it
    let mut available = 10_000u64;
    assert!(channel.get_packets_to_send(&mut sequence, &mut available, 99).is_empty());
    channel.process_slice_message_ack(1, 1);
    let again = channel.get_packets_to_send(&mut sequence, &mut available, 100);
    assert_eq!(again.len(), 3);
}

#[test]
fn calls_can_be_checked_first() {
    assert_eq!(payload_len(&Bytes::from_static(b"hello")), 5);
    let mut receiver = ReceiveChannelReliable::new(100_000, true);
    assert!(receiver.message_fits(&Bytes::from_static(b"hello")));
    assert!(receiver.can_receive());
    // a first slice needs a slice index below the slice count
    assert!(receiver.slice_fits_here(0, 1, 2));
    assert!(!receiver.slice_fits_here(0, 2, 2));
    assert!(!receiver.slice_fits_here(0, 0, 0));
    let slice = Slice { message_id: 0, slice_index: 0, num_slices: 2, payload: Bytes::from(pattern(SLICE_SIZE)) };
    assert_eq!(receiver.process_slice(slice), Ok(()));
    // later slices must agree on the slice count
    assert!(receiver.slice_fits_here(0, 1, 2));
    assert!(!receiver.slice_fits_here(0, 1, 3));
    let mut sender = SendChannelReliable::new(0, 100, 10_000);
    sender.send_message(Bytes::from_static(b"small")).unwrap();
    sender.send_message(Bytes::from(pattern(2500))).unwrap();
    assert!(sender.acks_small(0));
    assert!(!sender.acks_small(1));
    assert!(sender.acks_small(7));
    assert!(sender.acks_slice(1, 2));
    assert!(!sender.acks_slice(1, 3));
    assert!(!sender.acks_slice(0, 0));
    assert!(sender.acks_slice(7, 0));
}

#[test]
fn ordered_channel_hands_out_first_copies_in_id_order() {
    let mut receiver = ReceiveChannelReliable::new(10_000, true);
    assert_eq!(receiver.process_message(Bytes::from_static(b"two"), 2), Ok(()));
    assert_eq!(receiver.receive_message(), None);
    assert_eq!(receiver.process_message(Bytes::from_static(b"one"), 1), Ok(()));
    assert_eq!(receiver.process_message(Bytes::from_static(b"uno"), 1), Ok(()));
    assert_eq!(receiver.process_message(Bytes::from_static(b"zero"), 0), Ok(()));
    assert_eq!(receiver.receive_message().as_deref(), Some(&b"zero"[..]));
    assert_eq!(receiver.process_message(Bytes::from_static(b"nul"), 0), Ok(()));
    assert_eq!(receiver.receive_message().as_deref(), Some(&b"one"[..]));
    assert_eq!(receiver.receive_message().as_deref(), Some(&b"two"[..]));
    assert_eq!(receiver.receive_message(), None);
}
