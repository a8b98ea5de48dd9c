use byteorder::{BigEndian, WriteBytesExt};
use sha2::{Digest, Sha256};
use std::io::Cursor;
use std::io::Write;
use udp::data::{DecodeError, Message, Packet, EOF, HEADER_LEN};

fn create_packet_data(flags: u16, data_size: u16, offset: u32, packet_id: u32) -> Vec<u8> {
    let buf = vec![];
    let mut writer = Cursor::new(buf);
    writer.write_u16::<BigEndian>(flags).unwrap();
    writer.write_u16::<BigEndian>(data_size).unwrap();
    writer.write_u32::<BigEndian>(offset).unwrap();
    writer.write_u32::<BigEndian>(packet_id).unwrap();
    let sized = data_size as usize;
    let data = vec![2; sized];
    let data: &[u8] = &data;
    writer.write(data).unwrap();
    writer.into_inner()
}

fn packet(flags: u16, data_size: u16, offset: u32, packet_id: u32) -> Packet {
    Packet::new(&create_packet_data(flags, data_size, offset, packet_id)).unwrap()
}

fn sha256_of(data: &[u8]) -> String {
    let mut hasher = Sha256::default();
    hasher.input(data);
    format!("{:x}", hasher.result())
}

#[test]
fn read_buffer() {
    let data = create_packet_data(0, 10, 0, 1);
    let packet = Packet::new(&data).unwrap();
    assert_eq!(10, packet.data_size());
    assert_eq!(1, packet.packet_id);
}

#[test]
fn add_packet() {
    let data = create_packet_data(0, 10, 0, 1);
    let packet = Packet::new(&data).unwrap();
    let mut message = Message::new();
    message.add_packet(packet);
    assert_eq!(1, message.packets().len());
    assert_eq!(10, message.seen());
}

#[test]
fn gaps() {
    let mut message = Message::new();

    for i in 0..10 {
        if i == 4 || i == 8 {
            continue;
        };

        let data = create_packet_data(0, 1, i, 1);
        let packet = Packet::new(&data).unwrap();
        message.add_packet(packet);
    }

    let gaps = message.gaps();
    assert_eq!(gaps, &[(4, 5), (8, 9)]);
}

#[test]
fn eof_flag() {
    let data = create_packet_data(EOF, 10, 2000, 1);
    let packet = Packet::new(&data).unwrap();
    let mut message = Message::new();
    message.add_packet(packet);
    assert_eq!(2010, message.eof());
}

#[test]
fn sha256() {
    let mut message = Message::new();
    let mut offset = 0;

    for _ in 0..3 {
        let data = create_packet_data(0, 10, offset, 1);
        let packet = Packet::new(&data).unwrap();
        message.add_packet(packet);
        offset += 10;
    }

    let mut hasher = Sha256::default();
    let data = [2; 10 * 3];
    hasher.input(&data);
    let result = format!("{:x}", hasher.result());

    assert_eq!(message.sha256(), result);
}

#[test]
fn decode_reads_every_field_big_endian() {
    let bytes = [0x80, 0x01, 0x00, 0x03, 0x01, 0x02, 0x03, 0x04, 0xa0, 0xb0, 0xc0, 0xd0, 7, 8, 9];
    let packet = Packet::new(&bytes).unwrap();
    assert_eq!(packet.flags(), 0x8001);
    assert_eq!(packet.data_size(), 3);
    assert_eq!(packet.offset(), 0x0102_0304);
    assert_eq!(packet.packet_id(), 0xa0b0_c0d0);
    assert_eq!(packet.packet_id, 0xa0b0_c0d0);
    assert_eq!(packet.data(), &[7, 8, 9]);
    assert!(packet.is_terminal());
}

#[test]
fn decode_rejects_a_short_header() {
    for len in 0..HEADER_LEN {
        let bytes = vec![0u8; len];
        assert!(matches!(Packet::new(&bytes), Err(DecodeError::TruncatedInput)));
    }
}

#[test]
fn decode_rejects_a_short_payload() {
    let full = create_packet_data(0, 10, 0, 1);
    for len in HEADER_LEN..full.len() {
        assert!(matches!(Packet::new(&full[..len]), Err(DecodeError::TruncatedInput)));
    }
    assert!(Packet::new(&full).is_ok());
}

#[test]
fn decode_accepts_an_empty_payload() {
    let bytes = create_packet_data(0, 0, 5, 9);
    assert_eq!(bytes.len(), HEADER_LEN);
    let packet = Packet::new(&bytes).unwrap();
    assert_eq!(packet.data_size(), 0);
    assert_eq!(packet.data().len(), 0);
    assert_eq!(packet.offset(), 5);
}

#[test]
fn decode_ignores_what_follows_the_payload() {
    let mut bytes = create_packet_data(0, 4, 0, 1);
    bytes.extend_from_slice(&[9; 500]);
    let packet = Packet::new(&bytes).unwrap();
    assert_eq!(packet.data(), &[2, 2, 2, 2]);
}

#[test]
fn decode_takes_the_longest_payload() {
    let bytes = create_packet_data(0, 0xffff, 0xffff_ffff, 0xffff_ffff);
    let packet = Packet::new(&bytes).unwrap();
    assert_eq!(packet.data_size(), 0xffff);
    assert_eq!(packet.data().len(), 0xffff);
    assert!(matches!(Packet::new(&bytes[..bytes.len() - 1]), Err(DecodeError::TruncatedInput)));
}

#[test]
fn encode_writes_what_decode_reads() {
    let bytes = create_packet_data(EOF, 10, 0x0102_0304, 0x0a0b_0c0d);
    let packet = Packet::new(&bytes).unwrap();
    assert_eq!(packet.encode(), bytes);
    assert_eq!(
        &packet.encode()[..HEADER_LEN],
        &[0x80, 0x00, 0x00, 0x0a, 0x01, 0x02, 0x03, 0x04, 0x0a, 0x0b, 0x0c, 0x0d]
    );
}

#[test]
fn decode_of_encode_is_the_fragment() {
    let first = packet(0x1234, 3, 77, 42);
    let second = Packet::new(&first.encode()).unwrap();
    assert_eq!(second.flags(), 0x1234);
    assert_eq!(second.data_size(), 3);
    assert_eq!(second.offset(), 77);
    assert_eq!(second.packet_id(), 42);
    assert_eq!(second.data(), first.data());
}

#[test]
fn terminal_is_bit_fifteen() {
    assert!(packet(0x8000, 0, 0, 1).is_terminal());
    assert!(packet(0x8001, 0, 0, 1).is_terminal());
    assert!(packet(0xffff, 0, 0, 1).is_terminal());
    assert!(!packet(0x7fff, 0, 0, 1).is_terminal());
    assert!(!packet(0, 0, 0, 1).is_terminal());
}

#[test]
fn a_new_message_is_empty() {
    let message = Message::started_at(17);
    assert_eq!(message.start(), 17);
    assert_eq!(message.packets().len(), 0);
    assert_eq!(message.seen(), 0);
    assert_eq!(message.eof(), 0);
    assert!(!message.complete());
    assert_eq!(message.packets_packet_id(), None);
    assert_eq!(message.gaps(), Vec::new());
    assert_eq!(message.content(), Vec::<u8>::new());
}

#[test]
fn a_new_message_notes_the_clock() {
    let first = Message::new();
    let second = Message::new();
    assert!(second.start() >= first.start());
    assert_eq!(first.age(first.start()), 0);
}

#[test]
fn age_counts_from_the_start() {
    let message = Message::started_at(100);
    assert_eq!(message.age(100), 0);
    assert_eq!(message.age(130), 30);
    assert_eq!(message.age(99), 0);
    assert_eq!(message.age(u64::MAX), u64::MAX - 100);
}

#[test]
fn the_end_is_taken_from_the_last_terminal_fragment() {
    let mut message = Message::started_at(0);
    message.add_packet(packet(0, 10, 0, 1));
    assert_eq!(message.eof(), 0);
    message.add_packet(packet(0x8001, 10, 2000, 1));
    assert_eq!(message.eof(), 2010);
    message.add_packet(packet(EOF, 5, 100, 1));
    assert_eq!(message.eof(), 105);
    message.add_packet(packet(0, 5, 7000, 1));
    assert_eq!(message.eof(), 105);
    assert_eq!(message.seen(), 30);
}

#[test]
fn the_end_does_not_overflow() {
    let mut message = Message::started_at(0);
    message.add_packet(packet(EOF, 0xffff, 0xffff_ffff, 1));
    assert_eq!(message.eof(), 0xffff_ffff + 0xffff);
    assert_eq!(message.gaps(), vec![(0, 0xffff_ffff)]);
    message.add_packet(packet(0, 1, 0, 1));
    assert_eq!(message.gaps(), vec![(0, 0xffff_ffff), (0xffff_ffff + 0xffff, 0)]);
}

#[test]
fn complete_in_any_order_of_arrival() {
    let orders: [[usize; 3]; 6] =
        [[0, 1, 2], [0, 2, 1], [1, 0, 2], [1, 2, 0], [2, 0, 1], [2, 1, 0]];
    for order in orders.iter() {
        let mut message = Message::started_at(0);
        for (n, which) in order.iter().enumerate() {
            assert!(!message.complete());
            let flags = if *which == 2 { EOF } else { 0 };
            message.add_packet(packet(flags, 10, 10 * (*which as u32), 1));
            assert_eq!(message.seen(), 10 * (n as u128 + 1));
        }
        assert_eq!(message.eof(), 30);
        assert!(message.complete());
    }
}

#[test]
fn not_complete_before_the_end_is_known() {
    let mut message = Message::started_at(0);
    message.add_packet(packet(0, 0, 0, 1));
    assert_eq!(message.eof(), 0);
    assert_eq!(message.seen(), 0);
    assert!(!message.complete());
}

#[test]
fn not_complete_while_bytes_are_missing() {
    let mut message = Message::started_at(0);
    message.add_packet(packet(EOF, 10, 20, 1));
    assert!(!message.complete());
    message.add_packet(packet(0, 10, 0, 1));
    assert!(!message.complete());
}

#[test]
fn complete_stays_complete() {
    let mut message = Message::started_at(0);
    message.add_packet(packet(EOF, 10, 0, 1));
    assert!(message.complete());
    message.add_packet(packet(0, 10, 0, 1));
    assert!(message.complete());
    assert_eq!(message.seen(), 20);
    assert_eq!(message.eof(), 10);
}

#[test]
fn a_single_terminal_fragment_from_zero_is_a_message() {
    let mut message = Message::started_at(0);
    message.add_packet(packet(EOF, 1, 0, 1));
    assert!(message.complete());
}

#[test]
fn first_id_is_that_of_the_first_fragment() {
    let mut message = Message::started_at(0);
    message.add_packet(packet(0, 1, 9, 7));
    message.add_packet(packet(0, 1, 3, 8));
    assert_eq!(message.packets_packet_id(), Some(7));
    message.sort();
    assert_eq!(message.packets_packet_id(), Some(8));
}

#[test]
fn sort_orders_by_offset() {
    let mut message = Message::started_at(0);
    for offset in [30u32, 10, 50, 0, 20, 40] {
        message.add_packet(packet(0, 10, offset, 1));
    }
    message.sort();
    let offsets: Vec<u32> = message.packets().iter().map(|p| p.offset()).collect();
    assert_eq!(offsets, vec![0, 10, 20, 30, 40, 50]);
    assert_eq!(message.seen(), 60);
    assert_eq!(message.gaps(), Vec::new());
}

#[test]
fn sort_keeps_the_order_of_equal_offsets() {
    let mut message = Message::started_at(0);
    let given: [(u32, u32); 6] = [(5, 1), (3, 2), (5, 3), (3, 4), (5, 5), (0, 6)];
    for (offset, id) in given.iter() {
        message.add_packet(packet(0, 1, *offset, *id));
    }
    message.sort();
    let seen: Vec<(u32, u32)> =
        message.packets().iter().map(|p| (p.offset(), p.packet_id())).collect();
    assert_eq!(seen, vec![(0, 6), (3, 2), (3, 4), (5, 1), (5, 3), (5, 5)]);
}

#[test]
fn sort_leaves_a_sorted_message_as_it_is() {
    let mut message = Message::started_at(0);
    for offset in 0..5u32 {
        message.add_packet(packet(0, 1, offset, offset));
    }
    message.sort();
    let ids: Vec<u32> = message.packets().iter().map(|p| p.packet_id()).collect();
    assert_eq!(ids, vec![0, 1, 2, 3, 4]);
}

#[test]
fn gaps_after_sort() {
    let mut message = Message::started_at(0);
    for offset in [9u32, 7, 6, 5, 3, 2, 1, 0] {
        message.add_packet(packet(0, 1, offset, 1));
    }
    message.sort();
    assert_eq!(message.gaps(), &[(4, 5), (8, 9)]);
}

#[test]
fn no_gaps_in_a_run_from_zero() {
    let mut message = Message::started_at(0);
    message.add_packet(packet(0, 10, 0, 1));
    message.add_packet(packet(0, 5, 10, 1));
    message.add_packet(packet(EOF, 1, 15, 1));
    assert_eq!(message.gaps(), Vec::new());
}

#[test]
fn a_gap_at_the_front() {
    let mut message = Message::started_at(0);
    message.add_packet(packet(0, 1, 5, 1));
    assert_eq!(message.gaps(), &[(0, 5)]);
}

#[test]
fn a_gap_is_the_range_that_is_missing() {
    let mut message = Message::started_at(0);
    message.add_packet(packet(0, 10, 0, 1));
    message.add_packet(packet(0, 10, 20, 1));
    assert_eq!(message.gaps(), &[(10, 20)]);
}

#[test]
fn a_gap_reaches_from_the_end_in_front_to_the_next_start() {
    let mut message = Message::started_at(0);
    message.add_packet(packet(0, 10, 0, 1));
    message.add_packet(packet(0, 10, 100, 1));
    message.add_packet(packet(0, 10, 50, 1));
    assert_eq!(message.gaps(), &[(10, 100), (110, 50)]);
    message.sort();
    assert_eq!(message.gaps(), &[(10, 50), (60, 100)]);
}

#[test]
fn content_follows_the_order_of_the_fragments() {
    let mut message = Message::started_at(0);
    message.add_packet(Packet::new(&[0, 0, 0, 2, 0, 0, 0, 2, 0, 0, 0, 1, 30, 40]).unwrap());
    message.add_packet(Packet::new(&[0, 0, 0, 2, 0, 0, 0, 0, 0, 0, 0, 1, 10, 20]).unwrap());
    assert_eq!(message.content(), vec![30, 40, 10, 20]);
    message.sort();
    assert_eq!(message.content(), vec![10, 20, 30, 40]);
}

#[test]
fn sha256_of_nothing() {
    let message = Message::started_at(0);
    assert_eq!(
        message.sha256(),
        "e3b0c44298fc1c149afbf4c8996fb92427ae41e4649b934ca495991b7852b855"
    );
}

#[test]
fn sha256_has_sixty_four_digits() {
    let mut message = Message::started_at(0);
    message.add_packet(packet(0, 100, 0, 1));
    let hash = message.sha256();
    assert_eq!(hash.len(), 64);
    assert!(hash.chars().all(|c| "0123456789abcdef".contains(c)));
}

#[test]
fn sha256_of_abc() {
    let mut message = Message::started_at(0);
    let datagram = [0, 0, 0, 3, 0, 0, 0, 0, 0, 0, 0, 1, 0x61, 0x62, 0x63];
    message.add_packet(Packet::new(&datagram).unwrap());
    assert_eq!(
        message.sha256(),
        "ba7816bf8f01cfea414140de5dae2223b00361a396177a9cb410ff61f20015ad"
    );
}

#[test]
fn sha256_does_not_depend_on_the_order_of_arrival() {
    let orders: [[u32; 3]; 6] = [[0, 1, 2], [0, 2, 1], [1, 0, 2], [1, 2, 0], [2, 0, 1], [2, 1, 0]];
    let expected = sha256_of(&[2; 30]);
    for order in orders.iter() {
        let mut message = Message::started_at(0);
        for which in order.iter() {
            message.add_packet(packet(0, 10, 10 * which, 1));
        }
        message.sort();
        assert_eq!(message.sha256(), expected);
    }
}

#[test]
fn sha256_depends_on_the_order_of_the_fragments() {
    let mut message = Message::started_at(0);
    message.add_packet(Packet::new(&[0, 0, 0, 1, 0, 0, 0, 1, 0, 0, 0, 1, 0x62]).unwrap());
    message.add_packet(Packet::new(&[0, 0, 0, 1, 0, 0, 0, 0, 0, 0, 0, 1, 0x61]).unwrap());
    assert_eq!(message.sha256(), sha256_of(b"ba"));
    message.sort();
    assert_eq!(message.sha256(), sha256_of(b"ab"));
}

#[test]
fn three_fragments_make_a_message() {
    let datagrams = vec![
        create_packet_data(0, 10, 0, 1),
        create_packet_data(0, 10, 10, 1),
        create_packet_data(0x8000, 10, 20, 1),
    ];
    let mut message = Message::new();
    for datagram in datagrams.iter() {
        message.add_packet(Packet::new(datagram).unwrap());
    }
    assert_eq!(true, message.complete());
}
