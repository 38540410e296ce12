use bitpack::bit_reader::BitReader;
use bitpack::bit_writer::BitWriter;
use bitpack::streams::{ReadStream, WriteStream};

fn write_stream(words: usize) -> WriteStream {
    WriteStream::new(BitWriter::new(vec![0u32; words]))
}

fn reader_of(ws: WriteStream) -> ReadStream {
    ReadStream::new(BitReader::new(ws.into_words()))
}

#[test]
fn integer_round_trip_demo_range() {
    let mut ws = write_stream(5);
    assert!(ws.serialize_integer(42, 0, 60));
    ws.flush();
    let mut rs = reader_of(ws);
    let mut value: i32 = 0;
    assert!(rs.serialize_integer(&mut value, 0, 60));
    assert_eq!(value, 42);
}

#[test]
fn integer_round_trip_many_ranges() {
    let cases: &[(i32, i32, i32)] = &[
        (0, 0, 1),
        (1, 0, 1),
        (-50, -100, -25),
        (-100, -100, -25),
        (-25, -100, -25),
        (7, -8, 7),
        (1000000, -1000000, 1000000),
        (i32::MIN, i32::MIN, i32::MAX),
        (i32::MAX, i32::MIN, i32::MAX),
        (0, i32::MIN, i32::MAX),
        (60, 0, 60),
    ];
    for &(value, min, max) in cases {
        let mut ws = write_stream(4);
        assert!(ws.serialize_integer(value, min, max), "write {} in [{}, {}]", value, min, max);
        ws.flush();
        let mut rs = reader_of(ws);
        let mut decoded: i32 = 0;
        assert!(rs.serialize_integer(&mut decoded, min, max));
        assert_eq!(decoded, value, "round trip {} in [{}, {}]", value, min, max);
    }
}

#[test]
fn integer_uses_exactly_the_required_bits() {
    // a range of width 3 takes 2 bits, so exactly 16 such fields fill one
    // 32-bit word; the 17th must be refused and the stream stays usable
    let mut ws = write_stream(1);
    for i in 0..16 {
        assert!(ws.serialize_integer(i % 4, 0, 3), "field {}", i);
    }
    assert!(!ws.serialize_integer(0, 0, 3));
    ws.flush();
    let mut rs = reader_of(ws);
    for i in 0..16 {
        let mut v: i32 = -1;
        assert!(rs.serialize_integer(&mut v, 0, 3));
        assert_eq!(v, i % 4);
    }
}

#[test]
fn bits_round_trip_all_widths() {
    let patterns = [0u32, 1, 0xFFFF_FFFF, 0xDEAD_BEEF, 0x8000_0001, 0x5555_5555];
    for bits in 0..=32u32 {
        for &v in patterns.iter() {
            let mut ws = write_stream(4);
            assert!(ws.serialize_bits(v, bits));
            ws.flush();
            let mut rs = reader_of(ws);
            let mut decoded: u32 = 0;
            assert!(rs.serialize_bits(&mut decoded, bits));
            let mask = ((1u64 << bits) - 1) as u32;
            assert_eq!(decoded, v & mask, "value {:#x} at {} bits", v, bits);
        }
    }
}

#[test]
fn bits_straddling_word_boundaries() {
    let mut ws = write_stream(3);
    assert!(ws.serialize_bits(0x1FFFF, 17));
    assert!(ws.serialize_bits(0x0F0F0, 20));
    assert!(ws.serialize_bits(0x3, 2));
    assert!(ws.serialize_bits(0xABCD_1234, 32));
    ws.flush();
    let mut rs = reader_of(ws);
    let mut a: u32 = 0;
    let mut b: u32 = 0;
    let mut c: u32 = 0;
    let mut d: u32 = 0;
    assert!(rs.serialize_bits(&mut a, 17));
    assert!(rs.serialize_bits(&mut b, 20));
    assert!(rs.serialize_bits(&mut c, 2));
    assert!(rs.serialize_bits(&mut d, 32));
    assert_eq!(a, 0x1FFFF);
    assert_eq!(b, 0x0F0F0);
    assert_eq!(c, 0x3);
    assert_eq!(d, 0xABCD_1234);
}

#[test]
fn overflow_fails_at_the_field_that_overflows_not_before() {
    // one word: 32 bits of capacity
    let mut ws = write_stream(1);
    assert!(ws.serialize_bits(0xFFFFF, 20));
    // 20 + 20 > 32: this exact field must fail
    assert!(!ws.serialize_bits(0xFFFFF, 20));
    // the failure consumed nothing: 12 more bits still fit exactly
    assert!(ws.serialize_bits(0xFFF, 12));
    // and now the stream is full
    assert!(!ws.serialize_bits(0, 1));
    assert!(ws.serialize_bits(0, 0));
}

#[test]
fn read_overflow_fails_without_consuming() {
    let mut ws = write_stream(1);
    assert!(ws.serialize_bits(0xABC, 12));
    ws.flush();
    let mut rs = reader_of(ws);
    let mut w: u32 = 0;
    assert!(rs.serialize_bits(&mut w, 32));
    assert_eq!(w & 0xFFF, 0xABC);
    // everything is consumed now; the next read must fail and leave the slot
    let mut x: u32 = 99;
    assert!(!rs.serialize_bits(&mut x, 1));
    assert_eq!(x, 99);
}

#[test]
fn align_round_trip_validates_zero_padding() {
    let mut ws = write_stream(4);
    assert!(ws.serialize_bits(0b101, 3));
    assert!(ws.serialize_align());
    assert!(ws.serialize_bits(0xEE, 8));
    ws.flush();
    let mut rs = reader_of(ws);
    let mut v: u32 = 0;
    assert!(rs.serialize_bits(&mut v, 3));
    assert_eq!(v, 0b101);
    assert!(rs.serialize_align());
    assert!(rs.serialize_bits(&mut v, 8));
    assert_eq!(v, 0xEE);
}

#[test]
fn align_on_already_aligned_stream_is_a_no_op() {
    let mut ws = write_stream(1);
    assert!(ws.serialize_bits(0xFF, 8));
    assert!(ws.serialize_align());
    assert!(ws.serialize_bits(0xAB, 8));
    ws.flush();
    let mut rs = reader_of(ws);
    let mut v: u32 = 0;
    assert!(rs.serialize_bits(&mut v, 8));
    assert!(rs.serialize_align());
    assert!(rs.serialize_bits(&mut v, 8));
    assert_eq!(v, 0xAB);
}

#[test]
fn read_align_rejects_non_zero_padding() {
    // craft a word whose padding bits after a 3-bit field are not zero
    let mut rs = ReadStream::new(BitReader::new(vec![0xFFu32; 1]));
    let mut v: u32 = 0;
    assert!(rs.serialize_bits(&mut v, 3));
    assert_eq!(v, 0b111);
    // bits 3..8 hold 0b11111: the padding is invalid
    assert!(!rs.serialize_align());
}

#[test]
fn bytes_round_trip_all_boundary_lengths() {
    let lengths = [0usize, 1, 3, 4, 5, 31, 32, 33];
    for &len in lengths.iter() {
        let data: Vec<u8> = (0..len).map(|i| (i as u8).wrapping_mul(37).wrapping_add(11)).collect();
        // byte-aligned cursor
        let mut ws = write_stream(16);
        assert!(ws.serialize_bytes(&data, len));
        ws.flush();
        let mut rs = reader_of(ws);
        let mut decoded: Vec<u8> = Vec::new();
        assert!(rs.serialize_bytes(&mut decoded, len));
        assert_eq!(decoded, data, "aligned, length {}", len);
        // pre-misaligned cursor: serialize_bytes aligns both sides first
        let mut ws = write_stream(16);
        assert!(ws.serialize_bits(0b101, 3));
        assert!(ws.serialize_bytes(&data, len));
        ws.flush();
        let mut rs = reader_of(ws);
        let mut head: u32 = 0;
        assert!(rs.serialize_bits(&mut head, 3));
        assert_eq!(head, 0b101);
        let mut decoded: Vec<u8> = Vec::new();
        assert!(rs.serialize_bytes(&mut decoded, len));
        assert_eq!(decoded, data, "misaligned, length {}", len);
    }
}

#[test]
fn bytes_overflow_is_refused_whole() {
    let mut ws = write_stream(1);
    let data = vec![1u8, 2, 3, 4, 5];
    assert!(!ws.serialize_bytes(&data, 5));
    // nothing was written: four bytes still fit
    assert!(ws.serialize_bytes(&data, 4));
}

#[test]
fn mixed_fields_and_bytes_round_trip() {
    let data = vec![0xDEu8, 0xAD, 0xBE, 0xEF, 0x42];
    let mut ws = write_stream(8);
    assert!(ws.serialize_integer(-3, -10, 100));
    assert!(ws.serialize_bits(0x7, 3));
    assert!(ws.serialize_bytes(&data, 5));
    assert!(ws.serialize_integer(12345, 0, 100000));
    ws.flush();
    let mut rs = reader_of(ws);
    let mut i1: i32 = 0;
    let mut b1: u32 = 0;
    let mut bytes: Vec<u8> = Vec::new();
    let mut i2: i32 = 0;
    assert!(rs.serialize_integer(&mut i1, -10, 100));
    assert!(rs.serialize_bits(&mut b1, 3));
    assert!(rs.serialize_bytes(&mut bytes, 5));
    assert!(rs.serialize_integer(&mut i2, 0, 100000));
    assert_eq!(i1, -3);
    assert_eq!(b1, 0x7);
    assert_eq!(bytes, data);
    assert_eq!(i2, 12345);
}

#[test]
fn reader_would_overflow_probes_capacity() {
    let reader = BitReader::new(vec![0u32; 1]);
    assert!(!reader.would_overflow(32));
    assert!(reader.would_overflow(33));
    let mut reader = BitReader::new(vec![0u32; 1]);
    reader.read_bits(30);
    assert!(!reader.would_overflow(2));
    assert!(reader.would_overflow(3));
}

#[test]
fn writer_read_back_via_raw_engine() {
    let mut writer = BitWriter::new(vec![0u32; 2]);
    writer.write_bits(0x3F, 6);
    writer.write_bits(0x1, 1);
    writer.write_align();
    writer.write_bits(0xABCD, 16);
    writer.flush_bits();
    let mut reader = BitReader::new(writer.into_words());
    assert_eq!(reader.read_bits(6), 0x3F);
    assert_eq!(reader.read_bits(1), 0x1);
    assert!(reader.read_align());
    assert_eq!(reader.read_bits(16), 0xABCD);
}
