//! Range-aware serialization cursors over the bit engine.
//!
//! A [`WriteStream`] owns a [`BitWriter`], a [`ReadStream`] a [`BitReader`];
//! which one a piece of code holds is its mode. Both expose range-based
//! integer serialization, raw bit serialization and alignment; both report
//! overflow through their `bool` result instead of treating it as a contract
//! violation, and a rejected operation leaves the stream (and, on the read
//! side, the caller's slot) untouched. The read side decodes adversarial
//! input: it probes capacity before consuming anything.

use vstd::prelude::*;
use vstd::arithmetic::power2::pow2;
use crate::bit_reader::BitReader;
use crate::bit_writer::{align_padding, BitWriter};
use crate::bitmath::{bit_width, bits_required, lemma_bit_width_bounds};
use crate::bitstream::{
    bytes_val, stream_read, words_val, lemma_bytes_val_bound, lemma_bytes_val_byte_at,
    lemma_field_round_trip, lemma_stream_read_below, lemma_stream_read_past_end,
    lemma_stream_read_subfield,
};

verus! {

/// A write-mode cursor: wraps a [`BitWriter`] and reports overflow instead
/// of asserting.
pub struct WriteStream {
    writer: BitWriter,
}

impl WriteStream {
    /// The writer's invariant.
    pub closed spec fn inv(self) -> bool {
        self.writer.inv()
    }

    /// The bit stream written so far, as one natural number.
    pub closed spec fn stream_val(self) -> nat {
        self.writer.stream_val()
    }

    /// How many bits have been written so far.
    pub closed spec fn stream_len(self) -> nat {
        self.writer.stream_len()
    }

    /// The total capacity in bits.
    pub closed spec fn capacity(self) -> nat {
        self.writer.capacity()
    }

    /// The words of the backing buffer as they stand now.
    pub closed spec fn words(self) -> Seq<u32> {
        self.writer.words()
    }

    /// The stream value always fits the stream length.
    pub proof fn lemma_props(self)
        requires
            self.inv(),
        ensures
            self.stream_len() <= self.capacity(),
            self.stream_val() < pow2(self.stream_len()),
            self.capacity() == 32 * self.words().len(),
    {
        self.writer.lemma_props();
    }

    /// Wraps a writer; writing is this cursor's mode.
    pub fn new(writer: BitWriter) -> (r: WriteStream)
        ensures
            r.inv() <==> writer.inv(),
            r.stream_val() == writer.stream_val(),
            r.stream_len() == writer.stream_len(),
            r.capacity() == writer.capacity(),
            r.words() == writer.words(),
    {
        WriteStream { writer }
    }

    /// Serializes `value`, known to lie in `[min, max]`, using exactly
    /// `bit_width(max - min)` bits: the field written is `value - min`.
    /// Returns false, writing nothing, when that many bits no longer fit.
    pub fn serialize_integer(&mut self, value: i32, min: i32, max: i32) -> (r: bool)
        requires
            old(self).inv(),
            min < max,
            min <= value <= max,
        ensures
            final(self).inv(),
            final(self).capacity() == old(self).capacity(),
            final(self).words().len() == old(self).words().len(),
            r <==> old(self).stream_len() + bit_width((max - min) as nat) <= old(self).capacity(),
            r ==> final(self).stream_val() == old(self).stream_val() + pow2(
                old(self).stream_len(),
            ) * ((value - min) as nat),
            r ==> final(self).stream_len() == old(self).stream_len() + bit_width(
                (max - min) as nat,
            ),
            !r ==> *final(self) == *old(self),
    {
        let width: u32 = ((max as i64) - (min as i64)) as u32;
        let bits = bits_required(0, width);
        if bits > self.writer.remaining_bits() {
            return false;
        }
        let unsigned_value: u32 = ((value as i64) - (min as i64)) as u32;
        proof {
            lemma_bit_width_bounds(width as nat);
            vstd::arithmetic::div_mod::lemma_small_mod(
                unsigned_value as nat,
                pow2(bits as nat),
            );
        }
        self.writer.write_bits(unsigned_value, bits);
        true
    }

    /// Serializes the low `bits` bits of `value` as they stand. Returns
    /// false, writing nothing, when they no longer fit.
    pub fn serialize_bits(&mut self, value: u32, bits: u32) -> (r: bool)
        requires
            old(self).inv(),
            bits <= 32,
        ensures
            final(self).inv(),
            final(self).capacity() == old(self).capacity(),
            final(self).words().len() == old(self).words().len(),
            r <==> old(self).stream_len() + bits <= old(self).capacity(),
            r ==> final(self).stream_val() == old(self).stream_val() + pow2(
                old(self).stream_len(),
            ) * (value as nat % pow2(bits as nat)),
            r ==> final(self).stream_len() == old(self).stream_len() + bits,
            !r ==> *final(self) == *old(self),
    {
        if bits > self.writer.remaining_bits() {
            return false;
        }
        self.writer.write_bits(value, bits);
        true
    }

    /// Pads the stream with zero bits up to the next byte boundary. The
    /// padding changes no value: a reader can validate it. Returns false,
    /// writing nothing, when the padding no longer fits.
    pub fn serialize_align(&mut self) -> (r: bool)
        requires
            old(self).inv(),
        ensures
            final(self).inv(),
            final(self).capacity() == old(self).capacity(),
            final(self).words().len() == old(self).words().len(),
            r <==> old(self).stream_len() + align_padding(old(self).stream_len()) <= old(
                self,
            ).capacity(),
            r ==> final(self).stream_val() == old(self).stream_val(),
            r ==> final(self).stream_len() == old(self).stream_len() + align_padding(
                old(self).stream_len(),
            ),
            r ==> final(self).stream_len() % 8 == 0,
            !r ==> *final(self) == *old(self),
    {
        let ghost len0 = self.stream_len();
        let rem = self.writer.written_bits() % 8;
        let pad = (8 - rem) % 8;
        proof {
            if len0 % 8 != 0 {
                vstd::arithmetic::div_mod::lemma_small_mod((8 - len0 % 8) as nat, 8);
            }
            assert(pad as nat == align_padding(len0));
        }
        if pad > self.writer.remaining_bits() {
            return false;
        }
        self.writer.write_align();
        true
    }

    /// Serializes a span of `num_bytes` bytes of `data`: aligns the stream
    /// to a byte boundary first, then block-copies. Returns false, writing
    /// nothing at all, when padding and bytes together no longer fit.
    pub fn serialize_bytes(&mut self, data: &Vec<u8>, num_bytes: usize) -> (r: bool)
        requires
            old(self).inv(),
            num_bytes <= data@.len(),
        ensures
            final(self).inv(),
            final(self).capacity() == old(self).capacity(),
            final(self).words().len() == old(self).words().len(),
            r <==> old(self).stream_len() + align_padding(old(self).stream_len()) + 8 * num_bytes
                <= old(self).capacity(),
            r ==> final(self).stream_val() == old(self).stream_val() + pow2(
                old(self).stream_len() + align_padding(old(self).stream_len()),
            ) * bytes_val(data@.take(num_bytes as int)),
            r ==> final(self).stream_len() == old(self).stream_len() + align_padding(
                old(self).stream_len(),
            ) + 8 * num_bytes,
            r ==> final(self).stream_len() % 8 == 0,
            !r ==> *final(self) == *old(self),
    {
        let ghost len0 = self.stream_len();
        proof {
            self.writer.lemma_props();
        }
        let rem = self.writer.written_bits() % 8;
        let pad = (8 - rem) % 8;
        proof {
            if len0 % 8 != 0 {
                vstd::arithmetic::div_mod::lemma_small_mod((8 - len0 % 8) as nat, 8);
            }
            assert(pad as nat == align_padding(len0));
        }
        if num_bytes > 0x1fff_ffff {
            // more bytes than any buffer of this engine can hold
            return false;
        }
        if (pad as u64) + 8 * (num_bytes as u64) > self.writer.remaining_bits() as u64 {
            return false;
        }
        self.writer.write_align();
        self.writer.write_bytes(data, num_bytes);
        true
    }

    /// Forces out the last, partially filled word. Must be called once at
    /// the end of a write session, or that word is lost; after it, every
    /// field of the stream can be read off the buffer words.
    pub fn flush(&mut self)
        requires
            old(self).inv(),
        ensures
            final(self).stream_val() == old(self).stream_val(),
            final(self).stream_len() == old(self).stream_len(),
            final(self).capacity() == old(self).capacity(),
            final(self).words().len() == old(self).words().len(),
            final(self).stream_val() < pow2(final(self).stream_len()),
            forall|p: nat, b: nat|
                p + b <= final(self).stream_len() ==> #[trigger] stream_read(
                    words_val(final(self).words()),
                    p,
                    b,
                ) == stream_read(final(self).stream_val(), p, b),
    {
        self.writer.flush_bits();
    }

    /// Gives the backing buffer up, to hand to a reader. Call
    /// [`Self::flush`] first.
    pub fn into_words(self) -> (r: Vec<u32>)
        ensures
            r@ == self.words(),
    {
        self.writer.into_words()
    }
}

/// A read-mode cursor: wraps a [`BitReader`], tracks the bits consumed, and
/// probes capacity before it consumes anything, so a rejected operation
/// never moves the cursor or touches the caller's slot.
pub struct ReadStream {
    reader: BitReader,
    bits_read: u32,
}

impl ReadStream {
    /// The reader's invariant; the stream's own consumed-bits counter
    /// mirrors the reader's.
    pub closed spec fn inv(self) -> bool {
        self.reader.inv() && self.bits_read as nat == self.reader.stream_len()
    }

    /// The words of the buffer being decoded.
    pub closed spec fn words(self) -> Seq<u32> {
        self.reader.words()
    }

    /// How many bits have been consumed so far.
    pub closed spec fn stream_len(self) -> nat {
        self.reader.stream_len()
    }

    /// The total capacity in bits.
    pub closed spec fn capacity(self) -> nat {
        self.reader.capacity()
    }

    /// Wraps a reader; reading is this cursor's mode.
    pub fn new(reader: BitReader) -> (r: ReadStream)
        ensures
            r.inv() <==> reader.inv(),
            r.stream_len() == reader.stream_len(),
            r.capacity() == reader.capacity(),
            r.words() == reader.words(),
    {
        let bits_read = reader.consumed_bits();
        ReadStream { reader, bits_read }
    }

    /// Decodes an integer of the range `[min, max]` into `value`: reads
    /// `bit_width(max - min)` bits and adds `min` back (wrapping on
    /// adversarial input whose offset leaves the 32-bit signed range).
    /// Returns false without consuming anything or touching `value` when
    /// the field would run past the buffer.
    pub fn serialize_integer(&mut self, value: &mut i32, min: i32, max: i32) -> (r: bool)
        requires
            old(self).inv(),
            min < max,
        ensures
            final(self).inv(),
            final(self).words() == old(self).words(),
            final(self).capacity() == old(self).capacity(),
            r <==> old(self).stream_len() + bit_width((max - min) as nat) <= old(self).capacity(),
            !r ==> *final(self) == *old(self) && *final(value) == *old(value),
            r ==> final(self).stream_len() == old(self).stream_len() + bit_width(
                (max - min) as nat,
            ),
            r ==> *final(value) == vstd::wrapping::i32_specs::wrapping_add_unsigned(
                min,
                stream_read(
                    words_val(old(self).words()),
                    old(self).stream_len(),
                    bit_width((max - min) as nat),
                ) as u32,
            ),
            r && stream_read(
                words_val(old(self).words()),
                old(self).stream_len(),
                bit_width((max - min) as nat),
            ) <= (max - min) as nat ==> *final(value) == min + stream_read(
                words_val(old(self).words()),
                old(self).stream_len(),
                bit_width((max - min) as nat),
            ),
    {
        let width: u32 = ((max as i64) - (min as i64)) as u32;
        let bits = bits_required(0, width);
        if self.reader.would_overflow(bits) {
            return false;
        }
        let unsigned_value = self.reader.read_bits(bits);
        *value = min.wrapping_add_unsigned(unsigned_value);
        proof {
            self.reader.lemma_props();
        }
        self.bits_read = self.bits_read + bits;
        true
    }

    /// Reads `bits` raw bits into `value`. Returns false without consuming
    /// anything or touching `value` when they would run past the buffer.
    pub fn serialize_bits(&mut self, value: &mut u32, bits: u32) -> (r: bool)
        requires
            old(self).inv(),
            bits <= 32,
        ensures
            final(self).inv(),
            final(self).words() == old(self).words(),
            final(self).capacity() == old(self).capacity(),
            r <==> old(self).stream_len() + bits <= old(self).capacity(),
            !r ==> *final(self) == *old(self) && *final(value) == *old(value),
            r ==> final(self).stream_len() == old(self).stream_len() + bits,
            r ==> *final(value) == stream_read(
                words_val(old(self).words()),
                old(self).stream_len(),
                bits as nat,
            ),
    {
        if self.reader.would_overflow(bits) {
            return false;
        }
        let output = self.reader.read_bits(bits);
        *value = output;
        proof {
            self.reader.lemma_props();
        }
        self.bits_read = self.bits_read + bits;
        true
    }

    /// Decodes a span of `num_bytes` bytes into `data`, replacing its
    /// contents: consumes and validates the alignment padding first, then
    /// block-copies. Returns false leaving everything untouched when
    /// padding and bytes together would run past the buffer; returns false
    /// with only the padding consumed and `data` untouched when the padding
    /// was not zero.
    pub fn serialize_bytes(&mut self, data: &mut Vec<u8>, num_bytes: usize) -> (r: bool)
        requires
            old(self).inv(),
        ensures
            final(self).inv(),
            final(self).words() == old(self).words(),
            final(self).capacity() == old(self).capacity(),
            r <==> old(self).stream_len() + align_padding(old(self).stream_len()) + 8 * num_bytes
                <= old(self).capacity() && stream_read(
                words_val(old(self).words()),
                old(self).stream_len(),
                align_padding(old(self).stream_len()),
            ) == 0,
            old(self).stream_len() + align_padding(old(self).stream_len()) + 8 * num_bytes > old(
                self,
            ).capacity() ==> *final(self) == *old(self) && *final(data) == *old(data),
            r ==> final(self).stream_len() == old(self).stream_len() + align_padding(
                old(self).stream_len(),
            ) + 8 * num_bytes,
            old(self).stream_len() + align_padding(old(self).stream_len()) + 8 * num_bytes <= old(
                self,
            ).capacity() && !r ==> final(self).stream_len() == old(self).stream_len()
                + align_padding(old(self).stream_len()),
            r ==> final(data)@.len() == num_bytes,
            r ==> forall|j: int|
                0 <= j < num_bytes ==> final(data)@[j] as nat == stream_read(
                    words_val(old(self).words()),
                    old(self).stream_len() + align_padding(old(self).stream_len()) + 8 * (
                    j as nat),
                    8,
                ),
            !r ==> *final(data) == *old(data),
    {
        let ghost len0 = self.stream_len();
        proof {
            self.reader.lemma_props();
        }
        let rem = self.bits_read % 8;
        let pad = (8 - rem) % 8;
        proof {
            if len0 % 8 != 0 {
                vstd::arithmetic::div_mod::lemma_small_mod((8 - len0 % 8) as nat, 8);
            }
            assert(pad as nat == align_padding(len0));
        }
        if num_bytes > 0x1fff_ffff {
            // more bytes than any buffer of this engine can hold
            return false;
        }
        if (pad as u64) + 8 * (num_bytes as u64) > (self.reader.capacity_bits()
            - self.bits_read) as u64 {
            return false;
        }
        let ok = self.reader.read_align();
        self.bits_read = self.bits_read + pad;
        if !ok {
            return false;
        }
        let bytes = self.reader.read_bytes(num_bytes);
        proof {
            self.reader.lemma_props();
        }
        self.bits_read = self.bits_read + 8 * (num_bytes as u32);
        *data = bytes;
        true
    }

    /// Consumes the padding up to the next byte boundary and validates it:
    /// true only when the padding fit the buffer and really was zero. On
    /// non-zero padding the cursor has still advanced past it; on overflow
    /// nothing is consumed.
    pub fn serialize_align(&mut self) -> (r: bool)
        requires
            old(self).inv(),
        ensures
            final(self).inv(),
            final(self).words() == old(self).words(),
            final(self).capacity() == old(self).capacity(),
            old(self).stream_len() + align_padding(old(self).stream_len()) > old(self).capacity()
                ==> !r && *final(self) == *old(self),
            old(self).stream_len() + align_padding(old(self).stream_len()) <= old(self).capacity()
                ==> final(self).stream_len() == old(self).stream_len() + align_padding(
                old(self).stream_len(),
            ) && final(self).stream_len() % 8 == 0 && (r <==> stream_read(
                words_val(old(self).words()),
                old(self).stream_len(),
                align_padding(old(self).stream_len()),
            ) == 0),
    {
        let ghost len0 = self.stream_len();
        let rem = self.bits_read % 8;
        let pad = (8 - rem) % 8;
        proof {
            if len0 % 8 != 0 {
                vstd::arithmetic::div_mod::lemma_small_mod((8 - len0 % 8) as nat, 8);
            }
            assert(pad as nat == align_padding(len0));
        }
        if self.reader.would_overflow(pad) {
            return false;
        }
        let ok = self.reader.read_align();
        proof {
            self.reader.lemma_props();
        }
        self.bits_read = self.bits_read + pad;
        ok
    }
}


/// The integer round-trip law: an integer of the range `[min, max]`
/// serialized at position `pos` over any prefix that fits below `pos`, and
/// under anything appended above it, deserializes to exactly that integer,
/// and it occupies exactly `bit_width(max - min)` bits of the stream.
pub proof fn lemma_integer_round_trip(value: i32, min: i32, max: i32, prefix: nat, pos: nat, rest: nat)
    requires
        min < max,
        min <= value <= max,
        prefix < pow2(pos),
    ensures
        ({
            let b = bit_width((max - min) as nat);
            let v = prefix + pow2(pos) * ((value - min) as nat) + pow2(pos + b) * rest;
            &&& stream_read(v, pos, b) == (value - min) as nat
            &&& min + stream_read(v, pos, b) == value
        }),
{
    let b = bit_width((max - min) as nat);
    let m = (value - min) as nat;
    crate::bitmath::lemma_bit_width_bounds((max - min) as nat);
    assert(m < pow2(b));
    vstd::arithmetic::power2::lemma_pow2_adds(pos, b);
    assert(prefix + pow2(pos) * m + pow2(pos + b) * rest == prefix + pow2(pos) * (m + pow2(b)
        * rest)) by (nonlinear_arith)
        requires
            pow2(pos + b) == pow2(pos) * pow2(b),
    ;
    lemma_field_round_trip(prefix, m, rest, pos, b);
}

/// The raw-bits round-trip law: the low `bits` bits of a value written at
/// position `pos` over any prefix that fits below `pos`, and under anything
/// appended above them, read back as exactly the value masked to `bits`
/// bits.
pub proof fn lemma_bits_round_trip(value: u32, bits: nat, prefix: nat, pos: nat, rest: nat)
    requires
        bits <= 32,
        prefix < pow2(pos),
    ensures
        ({
            let m = value as nat % pow2(bits);
            let v = prefix + pow2(pos) * m + pow2(pos + bits) * rest;
            &&& stream_read(v, pos, bits) == m
            &&& bits < 32 ==> stream_read(v, pos, bits) == (value & (
            vstd::bits::low_bits_mask(bits) as u32)) as nat
            &&& bits == 32 ==> stream_read(v, pos, bits) == value as nat
        }),
{
    let m = value as nat % pow2(bits);
    vstd::arithmetic::power2::lemma_pow2_pos(bits);
    vstd::arithmetic::div_mod::lemma_mod_bound(value as int, pow2(bits) as int);
    vstd::arithmetic::power2::lemma_pow2_adds(pos, bits);
    assert(prefix + pow2(pos) * m + pow2(pos + bits) * rest == prefix + pow2(pos) * (m + pow2(
        bits,
    ) * rest)) by (nonlinear_arith)
        requires
            pow2(pos + bits) == pow2(pos) * pow2(bits),
    ;
    lemma_field_round_trip(prefix, m, rest, pos, bits);
    if bits < 32 {
        vstd::bits::lemma_u32_low_bits_mask_is_mod(value, bits);
        vstd::bits::lemma_u32_pow2_no_overflow(bits);
        assert((value % (pow2(bits) as u32)) as nat == value as nat % pow2(bits));
    } else {
        vstd::arithmetic::power2::lemma2_to64();
        vstd::arithmetic::div_mod::lemma_small_mod(value as nat, pow2(32));
    }
}

/// The alignment round-trip law: padding written by an alignment at
/// position `pos` stays zero under anything appended above it, so reading
/// the alignment back validates. The stream value `val` is unchanged by
/// the alignment itself: only writes above `pos` plus its padding follow.
pub proof fn lemma_align_round_trip(val: nat, pos: nat, rest: nat)
    requires
        val < pow2(pos),
    ensures
        stream_read(val + pow2(pos + align_padding(pos)) * rest, pos, align_padding(pos)) == 0,
{
    if align_padding(pos) > 0 {
        vstd::arithmetic::power2::lemma_pow2_strictly_increases(pos, pos + align_padding(pos));
    }
    lemma_stream_read_below(val, rest, pos + align_padding(pos), pos, align_padding(pos));
    lemma_stream_read_past_end(val, pos, align_padding(pos));
}

/// The byte-span round-trip law: a span of bytes written at byte-aligned
/// position `pos` over any prefix that fits below `pos`, and under anything
/// appended above it, reads back byte for byte.
pub proof fn lemma_bytes_round_trip(data: Seq<u8>, prefix: nat, pos: nat, rest: nat)
    requires
        prefix < pow2(pos),
    ensures
        forall|j: int|
            0 <= j < data.len() ==> #[trigger] stream_read(
                prefix + pow2(pos) * bytes_val(data) + pow2(pos + 8 * data.len()) * rest,
                pos + 8 * j as nat,
                8,
            ) == data[j] as nat,
{
    let n = data.len();
    let v = prefix + pow2(pos) * bytes_val(data) + pow2(pos + 8 * n) * rest;
    lemma_bytes_val_bound(data);
    vstd::arithmetic::power2::lemma_pow2_adds(pos, 8 * n);
    assert(v == prefix + pow2(pos) * (bytes_val(data) + pow2(8 * n) * rest)) by (nonlinear_arith)
        requires
            v == prefix + pow2(pos) * bytes_val(data) + pow2(pos + 8 * n) * rest,
            pow2(pos + 8 * n) == pow2(pos) * pow2(8 * n),
    ;
    lemma_field_round_trip(prefix, bytes_val(data), rest, pos, 8 * n);
    assert forall|j: int| 0 <= j < n implies #[trigger] stream_read(
        prefix + pow2(pos) * bytes_val(data) + pow2(pos + 8 * data.len()) * rest,
        pos + 8 * j as nat,
        8,
    ) == data[j] as nat by {
        lemma_stream_read_subfield(v, pos, 8 * n, 8 * j as nat, 8);
        lemma_bytes_val_byte_at(data, j);
    }
}

} // verus!
