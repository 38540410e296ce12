//! Bit-granular writer over a fixed-capacity buffer of 32-bit words.
//!
//! Bits are staged in a 64-bit scratch accumulator: a write ORs the new
//! field above the bits already staged, and whenever 32 or more bits are
//! staged one whole word is flushed to the buffer. A single write can
//! therefore straddle a word boundary without any conditional inside the
//! bit copy itself. The writer's contract is stated against the stream
//! model of [`crate::bitstream`]: the bits written so far are one natural
//! number [`BitWriter::stream_val`] of length [`BitWriter::stream_len`].

use vstd::prelude::*;
use vstd::arithmetic::power2::{pow2, lemma_pow2_adds, lemma_pow2_pos, lemma2_to64};
use vstd::arithmetic::div_mod::lemma_fundamental_div_mod;
use vstd::arithmetic::mul::lemma_mul_is_commutative;
use vstd::bits::{
    low_bits_mask, lemma_u64_low_bits_mask_is_mod, lemma_u64_shl_is_mul, lemma_u64_shr_is_div,
    lemma_u32_low_bits_mask_is_mod,
};
use crate::bitstream::{
    bytes_val, words_val, stream_read, lemma_bytes_val_take_succ, lemma_words_val_bound,
    lemma_words_val_take_succ, lemma_words_val_split, lemma_stream_read_below,
};

verus! {

/// The zero bits that advance a stream position `pos` to the next byte
/// boundary.
pub open spec fn align_padding(pos: nat) -> nat {
    (((8 - pos % 8) % 8) as nat)
}

/// Owns a fixed-capacity word-aligned output buffer; accumulates bits in a
/// wide scratch register and flushes completed 32-bit words.
pub struct BitWriter {
    buffer: Vec<u32>,
    scratch: u64,
    num_bits: u32,
    num_words: usize,
    bits_written: u32,
    word_index: usize,
    scratch_bits: u32,
}

impl BitWriter {
    /// The words of the backing buffer as they stand now.
    pub closed spec fn words(self) -> Seq<u32> {
        self.buffer@
    }

    /// The total capacity in bits: 32 for each word of the buffer.
    pub closed spec fn capacity(self) -> nat {
        self.num_bits as nat
    }

    /// Commits one whole word straight into the backing buffer, bypassing
    /// the scratch accumulator. Only valid at a word boundary, where the
    /// accumulator is empty.
    fn write_word_aligned(&mut self, w: u32)
        requires
            old(self).inv(),
            old(self).stream_len() % 32 == 0,
            old(self).stream_len() + 32 <= old(self).capacity(),
        ensures
            final(self).inv(),
            final(self).stream_val() == old(self).stream_val() + pow2(old(self).stream_len()) * (
            w as nat),
            final(self).stream_len() == old(self).stream_len() + 32,
            final(self).capacity() == old(self).capacity(),
            final(self).words().len() == old(self).words().len(),
    {
        let ghost wi = self.word_index as int;
        proof {
            lemma2_to64();
            // at a word boundary the accumulator is empty
            vstd::arithmetic::div_mod::lemma_mod_multiples_vanish(
                self.word_index as int,
                self.scratch_bits as int,
                32,
            );
            vstd::arithmetic::div_mod::lemma_small_mod(self.scratch_bits as nat, 32);
            assert(self.scratch_bits == 0);
            assert(self.scratch == 0);
            assert(32 * self.word_index + 32 <= 32 * self.num_words);
            assert(self.word_index < self.num_words) by (nonlinear_arith)
                requires
                    32 * self.word_index + 32 <= 32 * self.num_words,
            ;
        }
        let ghost pre = self.buffer@;
        self.buffer[self.word_index] = w;
        self.word_index = self.word_index + 1;
        self.bits_written = self.bits_written + 32;
        proof {
            assert(self.buffer@.take(wi) == pre.take(wi));
            lemma_words_val_take_succ(self.buffer@, wi);
            lemma_pow2_pos(32 * (wi + 1) as nat);
        }
    }

    /// Writes `num_bytes` bytes of `data` at the end of the stream, which
    /// must stand at a byte boundary. Head and tail bytes that do not fill
    /// a word go through the bit accumulator; the whole words between them
    /// are block-copied straight into the buffer.
    pub fn write_bytes(&mut self, data: &Vec<u8>, num_bytes: usize)
        requires
            old(self).inv(),
            num_bytes <= data@.len(),
            old(self).stream_len() % 8 == 0,
            old(self).stream_len() + 8 * num_bytes <= old(self).capacity(),
        ensures
            final(self).inv(),
            final(self).stream_val() == old(self).stream_val() + pow2(old(self).stream_len())
                * bytes_val(data@.take(num_bytes as int)),
            final(self).stream_len() == old(self).stream_len() + 8 * num_bytes,
            final(self).stream_len() % 8 == 0,
            final(self).capacity() == old(self).capacity(),
            final(self).words().len() == old(self).words().len(),
    {
        let ghost val0 = self.stream_val();
        let ghost len0 = self.stream_len();
        let ghost cap0 = self.capacity();
        let ghost wlen0 = self.words().len();
        proof {
            lemma2_to64();
            assert(bytes_val(data@.take(0)) == 0);
        }
        let mut i: usize = 0;
        // head: single bytes until the cursor stands at a word boundary
        while i < num_bytes && self.written_bits() % 32 != 0
            invariant
                self.inv(),
                i <= num_bytes,
                num_bytes <= data@.len(),
                self.stream_len() == len0 + 8 * i,
                len0 % 8 == 0,
                len0 + 8 * num_bytes <= cap0,
                self.stream_val() == val0 + pow2(len0) * bytes_val(data@.take(i as int)),
                self.capacity() == cap0,
                self.words().len() == wlen0,
            decreases num_bytes - i,
        {
            self.write_byte_step(data, num_bytes, i, Ghost(val0), Ghost(len0));
            i = i + 1;
        }
        // bulk: whole words, four bytes at a time, straight into the buffer
        while i + 4 <= num_bytes && self.written_bits() % 32 == 0
            invariant
                self.inv(),
                i <= num_bytes,
                num_bytes <= data@.len(),
                self.stream_len() == len0 + 8 * i,
                len0 % 8 == 0,
                len0 + 8 * num_bytes <= cap0,
                self.stream_val() == val0 + pow2(len0) * bytes_val(data@.take(i as int)),
                self.capacity() == cap0,
                self.words().len() == wlen0,
            decreases num_bytes - i,
        {
            let b0 = data[i] as u32;
            let b1 = data[i + 1] as u32;
            let b2 = data[i + 2] as u32;
            let b3 = data[i + 3] as u32;
            let w = b0 | (b1 << 8u32) | (b2 << 16u32) | (b3 << 24u32);
            proof {
                assert(w == b0 + 0x100 * b1 + 0x10000 * b2 + 0x1000000 * b3) by (bit_vector)
                    requires
                        w == b0 | (b1 << 8u32) | (b2 << 16u32) | (b3 << 24u32),
                        b0 < 0x100,
                        b1 < 0x100,
                        b2 < 0x100,
                        b3 < 0x100,
                ;
            }
            let ghost acc = bytes_val(data@.take(i as int));
            self.write_word_aligned(w);
            proof {
                lemma_append_chunk(val0, len0, acc, 8 * i as nat, w as nat);
                self.lemma_four_byte_chunk(data@, i as int, w as nat, acc);
            }
            i = i + 4;
        }
        // tail: what is left past the last whole word
        while i < num_bytes
            invariant
                self.inv(),
                i <= num_bytes,
                num_bytes <= data@.len(),
                self.stream_len() == len0 + 8 * i,
                len0 % 8 == 0,
                len0 + 8 * num_bytes <= cap0,
                self.stream_val() == val0 + pow2(len0) * bytes_val(data@.take(i as int)),
                self.capacity() == cap0,
                self.words().len() == wlen0,
            decreases num_bytes - i,
        {
            self.write_byte_step(data, num_bytes, i, Ghost(val0), Ghost(len0));
            i = i + 1;
        }
        proof {
            vstd::arithmetic::div_mod::lemma_mod_adds(len0 as int, 8 * num_bytes as int, 8);
            vstd::arithmetic::div_mod::lemma_mod_multiples_basic(num_bytes as int, 8);
        }
    }

    /// One byte of a byte span, written through the bit accumulator.
    fn write_byte_step(
        &mut self,
        data: &Vec<u8>,
        num_bytes: usize,
        i: usize,
        Ghost(val0): Ghost<nat>,
        Ghost(len0): Ghost<nat>,
    )
        requires
            old(self).inv(),
            i < num_bytes <= data@.len(),
            old(self).stream_len() == len0 + 8 * i,
            len0 + 8 * num_bytes <= old(self).capacity(),
            old(self).stream_val() == val0 + pow2(len0) * bytes_val(data@.take(i as int)),
        ensures
            final(self).inv(),
            final(self).stream_len() == len0 + 8 * (i + 1),
            final(self).stream_val() == val0 + pow2(len0) * bytes_val(data@.take(i + 1)),
            final(self).capacity() == old(self).capacity(),
            final(self).words().len() == old(self).words().len(),
    {
        let ghost acc = bytes_val(data@.take(i as int));
        let b = data[i];
        proof {
            lemma2_to64();
            vstd::arithmetic::div_mod::lemma_small_mod(b as nat, pow2(8));
        }
        self.write_bits(b as u32, 8);
        proof {
            lemma_append_chunk(val0, len0, acc, 8 * i as nat, b as nat);
            lemma_bytes_val_take_succ(data@, i as int);
        }
    }

    /// Four consecutive bytes taken as one little-endian word extend the
    /// byte prefix value by that word at the right position.
    proof fn lemma_four_byte_chunk(self, data: Seq<u8>, i: int, w: nat, acc: nat)
        requires
            0 <= i,
            i + 4 <= data.len(),
            acc == bytes_val(data.take(i)),
            w == data[i] as nat + 0x100 * data[i + 1] as nat + 0x10000 * data[i + 2] as nat
                + 0x1000000 * data[i + 3] as nat,
        ensures
            bytes_val(data.take(i + 4)) == acc + pow2(8 * i as nat) * w,
    {
        lemma2_to64();
        lemma_bytes_val_take_succ(data, i);
        lemma_bytes_val_take_succ(data, i + 1);
        lemma_bytes_val_take_succ(data, i + 2);
        lemma_bytes_val_take_succ(data, i + 3);
        lemma_pow2_adds(8 * i as nat, 8);
        lemma_pow2_adds(8 * (i + 1) as nat, 8);
        lemma_pow2_adds(8 * (i + 2) as nat, 8);
        assert(8 * (i + 1) as nat == 8 * i as nat + 8);
        assert(8 * (i + 2) as nat == 8 * (i + 1) as nat + 8);
        assert(8 * (i + 3) as nat == 8 * (i + 2) as nat + 8);
        let p = pow2(8 * i as nat);
        assert(bytes_val(data.take(i + 4)) == acc + p * data[i] as nat + (p * 0x100) * data[i
            + 1] as nat + ((p * 0x100) * 0x100) * data[i + 2] as nat + (((p * 0x100) * 0x100)
            * 0x100) * data[i + 3] as nat);
        assert(acc + p * data[i] as nat + (p * 0x100) * data[i + 1] as nat + ((p * 0x100) * 0x100)
            * data[i + 2] as nat + (((p * 0x100) * 0x100) * 0x100) * data[i + 3] as nat == acc + p
            * w) by (nonlinear_arith)
            requires
                w == data[i] as nat + 0x100 * data[i + 1] as nat + 0x10000 * data[i + 2] as nat
                    + 0x1000000 * data[i + 3] as nat,
        ;
    }

    /// How many bits have been written so far.
    pub closed spec fn stream_len(self) -> nat {
        self.bits_written as nat
    }

    /// The bit stream written so far, as one natural number: the words
    /// already flushed carry its low bits, the scratch register the rest.
    pub closed spec fn stream_val(self) -> nat {
        words_val(self.buffer@.take(self.word_index as int)) + pow2(32 * self.word_index as nat)
            * self.scratch as nat
    }

    /// The writer's invariant between operations: the staged bits stand
    /// below bit 31 of the scratch register, and the totals agree.
    pub closed spec fn inv(self) -> bool {
        &&& self.buffer@.len() == self.num_words
        &&& self.num_bits == 32 * self.num_words
        &&& self.bits_written <= self.num_bits
        &&& self.scratch_bits <= 31
        &&& (self.scratch as nat) < pow2(self.scratch_bits as nat)
        &&& self.bits_written == 32 * self.word_index + self.scratch_bits
    }

    /// Facts every holder of a well-formed writer may use: the stream fits
    /// the capacity, its value fits its length, and the capacity is the
    /// buffer's.
    pub proof fn lemma_props(self)
        requires
            self.inv(),
        ensures
            self.stream_len() <= self.capacity(),
            self.stream_val() < pow2(self.stream_len()),
            self.capacity() == 32 * self.words().len(),
            self.capacity() <= u32::MAX,
    {
        let wi = self.word_index as nat;
        let sb = self.scratch_bits as nat;
        let committed = words_val(self.buffer@.take(self.word_index as int));
        lemma_words_val_bound(self.buffer@.take(self.word_index as int));
        lemma_pow2_adds(32 * wi, sb);
        lemma_pow2_pos(32 * wi);
        lemma_pow2_pos(sb);
        assert(committed + pow2(32 * wi) * (self.scratch as nat) < pow2(32 * wi + sb))
            by (nonlinear_arith)
            requires
                committed < pow2(32 * wi),
                (self.scratch as nat) < pow2(sb),
                pow2(32 * wi + sb) == pow2(32 * wi) * pow2(sb),
                pow2(32 * wi) >= 1,
        ;
    }

    /// Makes a writer over `buffer`, whose length gives the capacity. The
    /// buffer length is bounded so that the capacity in bits fits a 32-bit
    /// counter.
    pub fn new(buffer: Vec<u32>) -> (w: BitWriter)
        requires
            buffer@.len() <= 0x07ff_ffff,
        ensures
            w.inv(),
            w.stream_val() == 0,
            w.stream_len() == 0,
            w.capacity() == 32 * buffer@.len(),
            w.words() == buffer@,
    {
        let num_words = buffer.len();
        let w = BitWriter {
            buffer,
            scratch: 0,
            num_words,
            num_bits: (num_words as u32) * 32,
            bits_written: 0,
            word_index: 0,
            scratch_bits: 0,
        };
        proof {
            lemma2_to64();
            assert(w.buffer@.take(0).len() == 0);
        }
        w
    }

    /// Commits the low word of the scratch register to the next buffer
    /// slot. Internal: callers state what the scratch held.
    fn flush_word(&mut self)
        requires
            old(self).buffer@.len() == old(self).num_words,
            old(self).word_index < old(self).num_words,
        ensures
            final(self).buffer@ == old(self).buffer@.update(
                old(self).word_index as int,
                (old(self).scratch & 0xffff_ffff) as u32,
            ),
            final(self).scratch == old(self).scratch >> 32,
            final(self).scratch_bits == if old(self).scratch_bits >= 32 {
                (old(self).scratch_bits - 32) as u32
            } else {
                0
            },
            final(self).word_index == old(self).word_index + 1,
            final(self).num_bits == old(self).num_bits,
            final(self).num_words == old(self).num_words,
            final(self).bits_written == old(self).bits_written,
    {
        let w = (self.scratch & 0xffff_ffff) as u32;
        self.buffer[self.word_index] = w;
        self.scratch = self.scratch >> 32;
        self.scratch_bits = if self.scratch_bits >= 32 {
            self.scratch_bits - 32
        } else {
            0
        };
        self.word_index = self.word_index + 1;
    }

    /// Writes the low `bits` bits of `value` at the end of the stream.
    /// Higher bits of `value` are discarded: the field appended is
    /// `value % pow2(bits)`. The caller must have room; the write-side
    /// treats capacity misuse as a contract violation, not a runtime
    /// failure.
    pub fn write_bits(&mut self, value: u32, bits: u32)
        requires
            old(self).inv(),
            bits <= 32,
            old(self).stream_len() + bits <= old(self).capacity(),
        ensures
            final(self).inv(),
            final(self).stream_val() == old(self).stream_val() + pow2(old(self).stream_len()) * (
            value as nat % pow2(bits as nat)),
            final(self).stream_len() == old(self).stream_len() + bits,
            final(self).capacity() == old(self).capacity(),
            final(self).words().len() == old(self).words().len(),
    {
        proof {
            lemma2_to64();
        }
        let ghost val0 = self.stream_val();
        let ghost len0 = self.stream_len();
        let ghost wi = self.word_index as nat;
        let ghost sb = self.scratch_bits as nat;
        let ghost committed = words_val(self.buffer@.take(self.word_index as int));

        proof {
            lemma_u64_shl_is_mul(1u64, bits as u64);
            lemma_pow2_pos(bits as nat);
            vstd::arithmetic::power2::lemma2_to64_rest();
            if (bits as nat) < 32 {
                vstd::arithmetic::power2::lemma_pow2_strictly_increases(bits as nat, 32);
            }
        }
        let mask: u32 = ((1u64 << bits) - 1) as u32;
        let masked: u32 = value & mask;
        proof {
            assert(mask == low_bits_mask(bits as nat) as u32);
            if bits < 32 {
                lemma_u32_low_bits_mask_is_mod(value, bits as nat);
            } else {
                assert(value & 0xffff_ffffu32 == value) by (bit_vector);
                assert(value as nat % pow2(32) == value as nat);
            }
            assert(masked as nat == value as nat % pow2(bits as nat));
            vstd::arithmetic::div_mod::lemma_mod_bound(value as int, pow2(bits as nat) as int);
        }

        let ghost sc0 = self.scratch;
        let ghost sb32 = self.scratch_bits;
        let staged: u64 = (masked as u64) << self.scratch_bits;
        proof {
            lemma_pow2_adds(32, 31);
            vstd::arithmetic::power2::lemma2_to64_rest();
            if sb < 31 {
                vstd::arithmetic::power2::lemma_pow2_strictly_increases(sb, 31);
            }
            assert((masked as u64) * pow2(sb) <= u64::MAX) by (nonlinear_arith)
                requires
                    (masked as u64) < pow2(32),
                    pow2(sb) <= pow2(31),
                    pow2(32) * pow2(31) == pow2(63),
                    pow2(63) <= u64::MAX,
            ;
            lemma_u64_shl_is_mul(masked as u64, sb32 as u64);
            assert(staged == (masked as u64) * pow2(sb));
            lemma_u64_shl_is_mul(1u64, sb32 as u64);
            assert(sc0 < (1u64 << sb32));
            assert(sc0 | staged == sc0 + staged) by (bit_vector)
                requires
                    staged == (masked as u64) << sb32,
                    sc0 < (1u64 << sb32),
                    sb32 <= 31u32,
                    masked <= 0xffff_ffffu32,
            ;
        }
        self.scratch = self.scratch | staged;
        self.scratch_bits = self.scratch_bits + bits;
        let ghost sc1 = self.scratch;
        let ghost sb1 = self.scratch_bits as nat;
        proof {
            // the scratch now stages the old bits with the field above them
            assert((sc1 as nat) == sc0 as nat + pow2(sb) * masked as nat) by {
                lemma_mul_is_commutative(pow2(sb) as int, masked as int);
            }
            lemma_pow2_adds(sb, bits as nat);
            assert((sc1 as nat) < pow2(sb1)) by (nonlinear_arith)
                requires
                    sc1 as nat == sc0 as nat + pow2(sb) * masked as nat,
                    (sc0 as nat) < pow2(sb),
                    (masked as nat) < pow2(bits as nat),
                    pow2(sb1) == pow2(sb) * pow2(bits as nat),
            ;
            // stream value with the staged field appended
            lemma_pow2_adds(32 * wi, sb);
            assert(committed + pow2(32 * wi) * (sc1 as nat) == val0 + pow2(len0) * (
            masked as nat)) by (nonlinear_arith)
                requires
                    sc1 as nat == sc0 as nat + pow2(sb) * masked as nat,
                    val0 == committed + pow2(32 * wi) * (sc0 as nat),
                    len0 == 32 * wi + sb,
                    pow2(len0) == pow2(32 * wi) * pow2(sb),
            ;
        }
        if self.scratch_bits >= 32 {
            let ghost pre = *self;
            proof {
                assert(32 * (wi + 1) <= 32 * self.num_words) by (nonlinear_arith)
                    requires
                        32 * wi + (pre.scratch_bits as nat) <= 32 * self.num_words + 31,
                        pre.scratch_bits >= 32,
                ;
            }
            self.flush_word();
            proof {
                self.lemma_flush_word_keeps_val(pre, val0 + pow2(len0) * (masked as nat));
            }
        }
        self.bits_written = self.bits_written + bits;
    }

    /// After `flush_word` ran on `pre`, the stream value is unchanged and
    /// the scratch bound tightened by one word.
    proof fn lemma_flush_word_keeps_val(self, pre: BitWriter, v: nat)
        requires
            pre.buffer@.len() == pre.num_words,
            pre.word_index < pre.num_words,
            pre.scratch_bits >= 32,
            (pre.scratch as nat) < pow2(pre.scratch_bits as nat),
            pre.stream_val() == v,
            self.buffer@ == pre.buffer@.update(
                pre.word_index as int,
                (pre.scratch & 0xffff_ffff) as u32,
            ),
            self.scratch == pre.scratch >> 32,
            self.scratch_bits == (pre.scratch_bits - 32) as u32,
            self.word_index == pre.word_index + 1,
        ensures
            self.stream_val() == v,
            (self.scratch as nat) < pow2(self.scratch_bits as nat),
    {
        let wi = pre.word_index as int;
        let w = (pre.scratch & 0xffff_ffff) as u32;
        lemma2_to64();
        lemma_u64_low_bits_mask_is_mod(pre.scratch, 32);
        assert(low_bits_mask(32) == 0xffff_ffff);
        assert(w as nat == pre.scratch as nat % pow2(32));
        lemma_u64_shr_is_div(pre.scratch, 32);
        assert(self.scratch as nat == pre.scratch as nat / pow2(32));
        // the updated slot extends the committed prefix
        assert(self.buffer@.take(wi) == pre.buffer@.take(wi));
        lemma_words_val_take_succ(self.buffer@, wi);
        let committed = words_val(pre.buffer@.take(wi));
        assert(words_val(self.buffer@.take(wi + 1)) == committed + pow2(32 * wi as nat) * (
        w as nat));
        // splitting the scratch at bit 32 preserves the total
        lemma_fundamental_div_mod(pre.scratch as int, pow2(32) as int);
        lemma_pow2_adds(32 * wi as nat, 32);
        lemma_pow2_pos(32 * wi as nat);
        assert(committed + pow2(32 * wi as nat) * (w as nat) + pow2(32 * (wi + 1) as nat) * (
        self.scratch as nat) == committed + pow2(32 * wi as nat) * (pre.scratch as nat))
            by (nonlinear_arith)
            requires
                pre.scratch as nat == pow2(32) * (self.scratch as nat) + w as nat,
                pow2(32 * (wi + 1) as nat) == pow2(32 * wi as nat) * pow2(32),
        ;
        // the remaining scratch fits the remaining staged width
        lemma_pow2_adds(32, (pre.scratch_bits - 32) as nat);
        assert((self.scratch as nat) < pow2((pre.scratch_bits - 32) as nat)) by (nonlinear_arith)
            requires
                self.scratch as nat == pre.scratch as nat / pow2(32),
                (pre.scratch as nat) < pow2(32) * pow2((pre.scratch_bits - 32) as nat),
                pow2(32) >= 1,
        ;
    }

    /// Forces out a partially filled final word, padding with zero bits
    /// above the staged ones; with nothing staged it is a no-op. After it
    /// returns, the buffer words alone carry the whole stream: every field
    /// of the stream can be read off the words.
    pub fn flush_bits(&mut self)
        requires
            old(self).inv(),
        ensures
            final(self).stream_val() == old(self).stream_val(),
            final(self).stream_len() == old(self).stream_len(),
            final(self).capacity() == old(self).capacity(),
            final(self).words().len() == old(self).words().len(),
            final(self).stream_val() < pow2(final(self).stream_len()),
            forall|p: nat, b: nat|
                p + b <= final(self).stream_len() ==> #[trigger] stream_read(
                    words_val(final(self).words()),
                    p,
                    b,
                ) == stream_read(final(self).stream_val(), p, b),
    {
        proof {
            self.lemma_props();
        }
        let ghost val0 = self.stream_val();
        if self.scratch_bits > 0 {
            let ghost pre = *self;
            proof {
                assert(32 * self.word_index < 32 * self.num_words) by (nonlinear_arith)
                    requires
                        32 * self.word_index + (self.scratch_bits as nat) <= 32 * self.num_words,
                        self.scratch_bits > 0,
                ;
            }
            self.flush_word();
            proof {
                self.lemma_flush_partial_word(pre, val0);
            }
        }
        proof {
            let wif = self.word_index as int;
            lemma2_to64();
            assert(self.scratch == 0);
            assert(self.stream_val() == val0);
            assert(self.stream_val() == words_val(self.buffer@.take(wif)) + pow2(
                32 * self.word_index as nat,
            ) * (self.scratch as nat));
            assert(pow2(32 * self.word_index as nat) * (self.scratch as nat) == 0);
            assert(words_val(self.buffer@.take(wif)) == val0);
            assert(self.stream_len() <= 32 * wif as nat);
            if self.stream_len() < 32 * wif as nat {
                vstd::arithmetic::power2::lemma_pow2_strictly_increases(
                    self.stream_len(),
                    32 * wif as nat,
                );
            }
            // below bit 32 * word_index the words carry exactly the stream
            lemma_words_val_split(self.buffer@, wif);
            assert(words_val(self.buffer@) == val0 + pow2(32 * wif as nat) * words_val(
                self.buffer@.skip(wif),
            ));
            assert forall|p: nat, b: nat| p + b <= self.stream_len() implies #[trigger] stream_read(
                words_val(self.words()),
                p,
                b,
            ) == stream_read(self.stream_val(), p, b) by {
                lemma_stream_read_below(
                    val0,
                    words_val(self.buffer@.skip(wif)),
                    32 * wif as nat,
                    p,
                    b,
                );
            }
        }
    }

    /// After a partial final word went out on `pre`, the committed words
    /// carry the whole stream value.
    proof fn lemma_flush_partial_word(self, pre: BitWriter, v: nat)
        requires
            pre.inv(),
            0 < pre.scratch_bits,
            pre.word_index < pre.num_words,
            pre.stream_val() == v,
            v < pow2(pre.stream_len()),
            self.buffer@ == pre.buffer@.update(
                pre.word_index as int,
                (pre.scratch & 0xffff_ffff) as u32,
            ),
            self.scratch == pre.scratch >> 32,
            self.scratch_bits == 0,
            self.word_index == pre.word_index + 1,
            self.bits_written == pre.bits_written,
            self.num_bits == pre.num_bits,
            self.num_words == pre.num_words,
        ensures
            self.stream_val() == v,
            self.scratch == 0,
            self.stream_len() <= 32 * self.word_index <= 32 * self.num_words,
    {
        let wi = pre.word_index as int;
        let w = (pre.scratch & 0xffff_ffff) as u32;
        lemma2_to64();
        lemma_u64_low_bits_mask_is_mod(pre.scratch, 32);
        assert(low_bits_mask(32) == 0xffff_ffff);
        vstd::arithmetic::power2::lemma_pow2_strictly_increases(pre.scratch_bits as nat, 32);
        vstd::arithmetic::div_mod::lemma_small_mod(pre.scratch as nat, pow2(32));
        assert(w as nat == pre.scratch as nat);
        lemma_u64_shr_is_div(pre.scratch, 32);
        vstd::arithmetic::div_mod::lemma_basic_div(pre.scratch as int, pow2(32) as int);
        assert(self.scratch == 0);
        assert(self.buffer@.take(wi) == pre.buffer@.take(wi));
        lemma_words_val_take_succ(self.buffer@, wi);
        lemma_pow2_pos(32 * (wi + 1) as nat);
        assert(32 * self.word_index <= 32 * self.num_words) by (nonlinear_arith)
            requires
                self.word_index <= self.num_words,
        ;
    }

    /// Pads the stream with zero bits up to the next byte boundary. The
    /// padding is zero-valued, so the stream value does not change and a
    /// reader can validate it.
    #[verifier::rlimit(50)]
    pub fn write_align(&mut self)
        requires
            old(self).inv(),
            old(self).stream_len() + align_padding(old(self).stream_len()) <= old(
                self,
            ).capacity(),
        ensures
            final(self).inv(),
            final(self).stream_val() == old(self).stream_val(),
            final(self).stream_len() == old(self).stream_len() + align_padding(
                old(self).stream_len(),
            ),
            final(self).stream_len() % 8 == 0,
            final(self).capacity() == old(self).capacity(),
            final(self).words().len() == old(self).words().len(),
    {
        let ghost len0 = self.stream_len();
        let ghost val0 = self.stream_val();
        let ghost q = len0 / 8;
        let remainder_bits = self.bits_written % 8;
        if remainder_bits != 0 {
            let pad = 8 - remainder_bits;
            proof {
                vstd::arithmetic::div_mod::lemma_small_mod((8 - len0 % 8) as nat, 8);
                assert(align_padding(len0) == pad);
            }
            self.write_bits(0u32, pad);
            proof {
                lemma_pow2_pos(pad as nat);
                vstd::arithmetic::div_mod::lemma_small_mod(0nat, pow2(pad as nat));
                vstd::arithmetic::div_mod::lemma_fundamental_div_mod(len0 as int, 8);
                assert(self.stream_len() == 8 * (q + 1));
                vstd::arithmetic::div_mod::lemma_mod_multiples_basic(q as int + 1, 8);
                assert((8 * (q + 1)) % 8 == 0) by (nonlinear_arith)
                    requires
                        ((q as int + 1) * 8) % 8 == 0,
                ;
                assert((0u32 as nat) % pow2(pad as nat) == 0);
                assert(self.stream_val() == val0 + pow2(len0) * 0);
                assert(self.stream_val() == val0);
                assert(self.stream_len() == len0 + align_padding(len0));
                assert(self.stream_len() % 8 == 0);
            }
        } else {
            proof {
                assert(align_padding(len0) == 0);
                assert(self.stream_val() == val0);
                assert(self.stream_len() % 8 == 0);
            }
        }
    }

    /// How many bits have been written so far.
    pub fn written_bits(&self) -> (r: u32)
        ensures
            r as nat == self.stream_len(),
    {
        self.bits_written
    }

    /// How many bits of capacity are still free.
    pub fn remaining_bits(&self) -> (r: u32)
        requires
            self.inv(),
        ensures
            r as nat == self.capacity() - self.stream_len(),
    {
        self.num_bits - self.bits_written
    }

    /// Gives the backing buffer up. Call [`Self::flush_bits`] first, or the
    /// staged bits of the last partial word are lost.
    pub fn into_words(self) -> (r: Vec<u32>)
        ensures
            r@ == self.words(),
    {
        self.buffer
    }
}

/// Appending a `k`-bit chunk of value `m` to a stream that already carries
/// `acc` above position `len0` extends what stands above `len0` by that
/// chunk.
proof fn lemma_append_chunk(val0: nat, len0: nat, acc: nat, k: nat, m: nat)
    ensures
        val0 + pow2(len0) * acc + pow2(len0 + k) * m == val0 + pow2(len0) * (acc + pow2(k) * m),
{
    lemma_pow2_adds(len0, k);
    assert(pow2(len0) * acc + (pow2(len0) * pow2(k)) * m == pow2(len0) * (acc + pow2(k) * m))
        by (nonlinear_arith);
}

} // verus!
