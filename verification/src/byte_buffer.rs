//! A plain fixed-capacity byte cursor, used by the packet envelope.
//!
//! This layer is byte-grained and independent of the bit engine: fields are
//! whole little-endian bytes at fixed offsets. The multi-byte loads and
//! stores go through `byteorder`; each call stands behind a trusted wrapper
//! whose contract states the exact bytes moved.

use vstd::prelude::*;
use byteorder::ByteOrder;

verus! {

/// The four little-endian bytes of a 32-bit value, least significant first.
pub open spec fn u32_le_seq(v: u32) -> Seq<u8> {
    seq![
        (v as nat % 256) as u8,
        (v as nat / 256 % 256) as u8,
        (v as nat / 0x10000 % 256) as u8,
        (v as nat / 0x1000000 % 256) as u8,
    ]
}

/// The two little-endian bytes of a 16-bit value, least significant first.
pub open spec fn u16_le_seq(v: u16) -> Seq<u8> {
    seq![(v as nat % 256) as u8, (v as nat / 256 % 256) as u8]
}

/// The 32-bit value whose little-endian bytes stand at `d[i .. i + 4]`.
pub open spec fn le32_at(d: Seq<u8>, i: int) -> nat {
    d[i] as nat + 0x100 * d[i + 1] as nat + 0x10000 * d[i + 2] as nat + 0x1000000 * d[i
        + 3] as nat
}

/// The 16-bit value whose little-endian bytes stand at `d[i .. i + 2]`.
pub open spec fn le16_at(d: Seq<u8>, i: int) -> nat {
    d[i] as nat + 0x100 * d[i + 1] as nat
}

/// Reading the four bytes of a 32-bit value back gives the value.
pub proof fn lemma_u32_le_round_trip(d: Seq<u8>, i: int, v: u32)
    requires
        0 <= i,
        i + 4 <= d.len(),
        d.subrange(i, i + 4) == u32_le_seq(v),
    ensures
        le32_at(d, i) == v as nat,
{
    assert(d[i] == u32_le_seq(v)[0]);
    assert(d[i + 1] == u32_le_seq(v)[1]);
    assert(d[i + 2] == u32_le_seq(v)[2]);
    assert(d[i + 3] == u32_le_seq(v)[3]);
    let n = v as nat;
    assert(n % 256 + 0x100 * (n / 256 % 256) + 0x10000 * (n / 0x10000 % 256) + 0x1000000 * (n
        / 0x1000000 % 256) == n) by (nonlinear_arith)
        requires
            n < 0x100000000,
    ;
}

/// Reading the two bytes of a 16-bit value back gives the value.
pub proof fn lemma_u16_le_round_trip(d: Seq<u8>, i: int, v: u16)
    requires
        0 <= i,
        i + 2 <= d.len(),
        d.subrange(i, i + 2) == u16_le_seq(v),
    ensures
        le16_at(d, i) == v as nat,
{
    assert(d[i] == u16_le_seq(v)[0]);
    assert(d[i + 1] == u16_le_seq(v)[1]);
    let n = v as nat;
    assert(n % 256 + 0x100 * (n / 256 % 256) == n) by (nonlinear_arith)
        requires
            n < 0x10000,
    ;
}

/// Relies on byteorder's `LittleEndian::write_u32`: it stores the four
/// little-endian bytes of `value` (the value's `to_le_bytes`) into the
/// first four bytes of the slice it is given, here `data[i .. i + 4]`.
#[verifier::external_body]
fn le_write_u32(data: &mut Vec<u8>, i: usize, value: u32)
    requires
        i + 4 <= old(data)@.len(),
    ensures
        final(data)@.len() == old(data)@.len(),
        final(data)@.subrange(i as int, i as int + 4) == u32_le_seq(value),
        forall|j: int|
            0 <= j < old(data)@.len() && !(i <= j < i + 4) ==> final(data)@[j] == old(data)@[j],
{
    byteorder::LittleEndian::write_u32(&mut data[i..i + 4], value);
}

/// Relies on byteorder's `LittleEndian::write_u16`: it stores the two
/// little-endian bytes of `value` into the first two bytes of the slice it
/// is given, here `data[i .. i + 2]`.
#[verifier::external_body]
fn le_write_u16(data: &mut Vec<u8>, i: usize, value: u16)
    requires
        i + 2 <= old(data)@.len(),
    ensures
        final(data)@.len() == old(data)@.len(),
        final(data)@.subrange(i as int, i as int + 2) == u16_le_seq(value),
        forall|j: int|
            0 <= j < old(data)@.len() && !(i <= j < i + 2) ==> final(data)@[j] == old(data)@[j],
{
    byteorder::LittleEndian::write_u16(&mut data[i..i + 2], value);
}

/// Relies on byteorder's `LittleEndian::read_u32`: it reads the first four
/// bytes of the slice it is given, here `data[i .. i + 4]`, as one
/// little-endian 32-bit value (`from_le_bytes`).
#[verifier::external_body]
fn le_read_u32(data: &Vec<u8>, i: usize) -> (r: u32)
    requires
        i + 4 <= data@.len(),
    ensures
        r as nat == le32_at(data@, i as int),
{
    byteorder::LittleEndian::read_u32(&data[i..i + 4])
}

/// Relies on byteorder's `LittleEndian::read_u16`: it reads the first two
/// bytes of the slice it is given, here `data[i .. i + 2]`, as one
/// little-endian 16-bit value.
#[verifier::external_body]
fn le_read_u16(data: &Vec<u8>, i: usize) -> (r: u16)
    requires
        i + 2 <= data@.len(),
    ensures
        r as nat == le16_at(data@, i as int),
{
    byteorder::LittleEndian::read_u16(&data[i..i + 2])
}

/// A fixed-capacity byte buffer with an explicit cursor. The packet
/// envelope reads and writes whole-byte little-endian fields through it.
pub struct Buffer {
    /// The backing bytes; their number never changes.
    pub data: Vec<u8>,
    /// The fixed capacity in bytes: always the length of `data`.
    pub size: usize,
    /// The cursor: the next byte to read or write.
    pub index: usize,
}

impl Buffer {
    /// The buffer is as long as its declared size and the cursor is inside
    /// it.
    pub open spec fn wf(self) -> bool {
        self.data@.len() == self.size && self.index <= self.size
    }

    /// Makes a zero-filled buffer of `size` bytes with the cursor at its
    /// start.
    pub fn new(size: usize) -> (r: Buffer)
        ensures
            r.wf(),
            r.size == size,
            r.index == 0,
            r.data@.len() == size,
            forall|j: int| 0 <= j < size ==> r.data@[j] == 0u8,
    {
        Buffer { data: vec![0u8; size], size, index: 0 }
    }
}

/// Writes one byte at the cursor; the caller must have left room.
pub fn write_byte(buffer: &mut Buffer, value: u8)
    requires
        old(buffer).wf(),
        old(buffer).index < old(buffer).size,
    ensures
        final(buffer).wf(),
        final(buffer).size == old(buffer).size,
        final(buffer).index == old(buffer).index + 1,
        final(buffer).data@ == old(buffer).data@.update(old(buffer).index as int, value),
{
    let i = buffer.index;
    buffer.data[i] = value;
    buffer.index = buffer.index + 1;
}

/// Writes a 16-bit value at the cursor as two little-endian bytes.
pub fn write_short(buffer: &mut Buffer, value: u16)
    requires
        old(buffer).wf(),
        old(buffer).index + 2 <= old(buffer).size,
    ensures
        final(buffer).wf(),
        final(buffer).size == old(buffer).size,
        final(buffer).index == old(buffer).index + 2,
        final(buffer).data@.len() == old(buffer).data@.len(),
        final(buffer).data@.subrange(
            old(buffer).index as int,
            old(buffer).index as int + 2,
        ) == u16_le_seq(value),
        forall|j: int|
            0 <= j < old(buffer).data@.len() && !(old(buffer).index <= j < old(buffer).index + 2)
                ==> final(buffer).data@[j] == old(buffer).data@[j],
{
    let i = buffer.index;
    le_write_u16(&mut buffer.data, i, value);
    buffer.index = buffer.index + 2;
}

/// Writes a 32-bit value at the cursor as four little-endian bytes.
pub fn write_int(buffer: &mut Buffer, value: u32)
    requires
        old(buffer).wf(),
        old(buffer).index + 4 <= old(buffer).size,
    ensures
        final(buffer).wf(),
        final(buffer).size == old(buffer).size,
        final(buffer).index == old(buffer).index + 4,
        final(buffer).data@.len() == old(buffer).data@.len(),
        final(buffer).data@.subrange(
            old(buffer).index as int,
            old(buffer).index as int + 4,
        ) == u32_le_seq(value),
        forall|j: int|
            0 <= j < old(buffer).data@.len() && !(old(buffer).index <= j < old(buffer).index + 4)
                ==> final(buffer).data@[j] == old(buffer).data@[j],
{
    let i = buffer.index;
    le_write_u32(&mut buffer.data, i, value);
    buffer.index = buffer.index + 4;
}

/// Reads one byte at the cursor; the caller must know one is left.
pub fn read_byte(buffer: &mut Buffer) -> (r: u8)
    requires
        old(buffer).wf(),
        old(buffer).index < old(buffer).size,
    ensures
        final(buffer).wf(),
        final(buffer).size == old(buffer).size,
        final(buffer).data == old(buffer).data,
        final(buffer).index == old(buffer).index + 1,
        r == old(buffer).data@[old(buffer).index as int],
{
    let i = buffer.index;
    buffer.index = buffer.index + 1;
    buffer.data[i]
}

/// Reads a 16-bit little-endian value at the cursor.
pub fn read_short(buffer: &mut Buffer) -> (r: u16)
    requires
        old(buffer).wf(),
        old(buffer).index + 2 <= old(buffer).size,
    ensures
        final(buffer).wf(),
        final(buffer).size == old(buffer).size,
        final(buffer).data == old(buffer).data,
        final(buffer).index == old(buffer).index + 2,
        r as nat == le16_at(old(buffer).data@, old(buffer).index as int),
{
    let i = buffer.index;
    buffer.index = buffer.index + 2;
    le_read_u16(&buffer.data, i)
}

/// Reads a 32-bit little-endian value at the cursor.
pub fn read_int(buffer: &mut Buffer) -> (r: u32)
    requires
        old(buffer).wf(),
        old(buffer).index + 4 <= old(buffer).size,
    ensures
        final(buffer).wf(),
        final(buffer).size == old(buffer).size,
        final(buffer).data == old(buffer).data,
        final(buffer).index == old(buffer).index + 4,
        r as nat == le32_at(old(buffer).data@, old(buffer).index as int),
{
    let i = buffer.index;
    buffer.index = buffer.index + 4;
    le_read_u32(&buffer.data, i)
}

} // verus!
