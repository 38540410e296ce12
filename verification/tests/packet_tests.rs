use bitpack::byte_buffer::{read_byte, read_int, read_short, write_byte, write_int, write_short, Buffer};
use bitpack::packet::{Packet, PacketA, PacketB, PacketC};

#[test]
fn packet_a_round_trip() {
    let mut buffer = Buffer::new(100);
    let packet = Packet::A(PacketA { x: 10, y: 15, z: 20 });
    packet.write(&mut buffer);
    buffer.index = 0;
    let decoded = Packet::new(&mut buffer);
    assert_eq!(decoded, Some(packet));
}

#[test]
fn packet_b_round_trip() {
    let mut buffer = Buffer::new(100);
    let packet = Packet::B(PacketB { elements: vec![1, 2, 3, 4, 5], num_elements: 5 });
    packet.write(&mut buffer);
    buffer.index = 0;
    let decoded = Packet::new(&mut buffer);
    assert_eq!(decoded, Some(packet));
}

#[test]
fn packet_c_round_trip() {
    let mut buffer = Buffer::new(100);
    let packet = Packet::C(PacketC { x: true, y: 7, z: 13 });
    packet.write(&mut buffer);
    buffer.index = 0;
    let decoded = Packet::new(&mut buffer);
    assert_eq!(decoded, Some(packet));
}

#[test]
fn packet_b_empty_round_trip() {
    let mut buffer = Buffer::new(16);
    let packet = Packet::B(PacketB { elements: vec![], num_elements: 0 });
    packet.write(&mut buffer);
    buffer.index = 0;
    assert_eq!(Packet::new(&mut buffer), Some(packet));
}

#[test]
fn unknown_discriminant_fails_to_decode() {
    let mut buffer = Buffer::new(100);
    write_byte(&mut buffer, 7);
    write_int(&mut buffer, 10);
    write_int(&mut buffer, 15);
    write_int(&mut buffer, 20);
    buffer.index = 0;
    assert_eq!(Packet::new(&mut buffer), None);
    assert_eq!(buffer.index, 0);
}

#[test]
fn truncated_payload_fails_to_decode() {
    // a PacketA discriminant with only eight payload bytes behind it
    let mut buffer = Buffer::new(9);
    write_byte(&mut buffer, 0);
    write_int(&mut buffer, 10);
    write_int(&mut buffer, 15);
    buffer.index = 0;
    assert_eq!(Packet::new(&mut buffer), None);
}

#[test]
fn empty_buffer_fails_to_decode() {
    let mut buffer = Buffer::new(0);
    assert_eq!(Packet::new(&mut buffer), None);
}

#[test]
fn packet_b_with_truncated_elements_fails_to_decode() {
    // declares five elements but holds bytes for two
    let mut buffer = Buffer::new(13);
    write_byte(&mut buffer, 1);
    write_int(&mut buffer, 5);
    write_int(&mut buffer, 11);
    write_int(&mut buffer, 22);
    buffer.index = 0;
    assert_eq!(Packet::new(&mut buffer), None);
}

#[test]
fn packets_back_to_back_decode_in_order() {
    let mut buffer = Buffer::new(100);
    let a = Packet::A(PacketA { x: 1, y: 2, z: 3 });
    let b = Packet::B(PacketB { elements: vec![9, 8], num_elements: 2 });
    let c = Packet::C(PacketC { x: false, y: 1000, z: 0xFFFF_FFFF });
    a.write(&mut buffer);
    b.write(&mut buffer);
    c.write(&mut buffer);
    buffer.index = 0;
    assert_eq!(Packet::new(&mut buffer), Some(a));
    assert_eq!(Packet::new(&mut buffer), Some(b));
    assert_eq!(Packet::new(&mut buffer), Some(c));
}

#[test]
fn packet_wire_format_is_little_endian_with_discriminant_first() {
    let mut buffer = Buffer::new(16);
    let packet = Packet::A(PacketA { x: 0xAABBCCDD, y: 1, z: 0x01020304 });
    packet.write(&mut buffer);
    assert_eq!(buffer.index, 13);
    assert_eq!(
        &buffer.data[..13],
        &[0, 0xDD, 0xCC, 0xBB, 0xAA, 1, 0, 0, 0, 0x04, 0x03, 0x02, 0x01]
    );
}

#[test]
fn packet_c_wire_format() {
    let mut buffer = Buffer::new(8);
    let packet = Packet::C(PacketC { x: true, y: 0x1234, z: 0xCAFEBABE });
    packet.write(&mut buffer);
    assert_eq!(buffer.index, 8);
    assert_eq!(&buffer.data[..8], &[2, 1, 0x34, 0x12, 0xBE, 0xBA, 0xFE, 0xCA]);
}

#[test]
fn byte_cursor_round_trips_and_is_little_endian() {
    let mut buffer = Buffer::new(7);
    write_byte(&mut buffer, 0x7F);
    write_short(&mut buffer, 0xBEEF);
    write_int(&mut buffer, 0x12345678);
    assert_eq!(buffer.index, 7);
    assert_eq!(&buffer.data[..], &[0x7F, 0xEF, 0xBE, 0x78, 0x56, 0x34, 0x12]);
    buffer.index = 0;
    assert_eq!(read_byte(&mut buffer), 0x7F);
    assert_eq!(read_short(&mut buffer), 0xBEEF);
    assert_eq!(read_int(&mut buffer), 0x12345678);
}

#[test]
fn byte_cursor_reads_what_stands_in_the_buffer() {
    let mut buffer = Buffer::new(6);
    buffer.data = vec![0x01, 0x00, 0xFF, 0xFF, 0xFF, 0x7F];
    assert_eq!(read_short(&mut buffer), 1);
    assert_eq!(read_int(&mut buffer), 0x7FFFFFFF);
    assert_eq!(buffer.index, 6);
}
