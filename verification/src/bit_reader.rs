//! Bit-granular reader: the mirror of [`crate::bit_writer::BitWriter`].
//!
//! Whole words are pulled from the buffer into a 64-bit scratch register and
//! requested bit counts are peeled off its low end. A failed capacity probe
//! never consumes state: callers check [`BitReader::would_overflow`] before
//! reading, so a rejected read leaves the cursor untouched.

use vstd::prelude::*;
use vstd::arithmetic::power2::{pow2, lemma_pow2_pos, lemma2_to64};
use vstd::bits::{low_bits_mask, lemma_u64_low_bits_mask_is_mod, lemma_u64_shl_is_mul, lemma_u64_shr_is_div};
use crate::bit_writer::align_padding;
use vstd::bits::{lemma_u32_low_bits_mask_is_mod, lemma_u32_shr_is_div};
use crate::bitstream::{
    words_val, stream_read, lemma_stream_read_bound, lemma_stream_read_concat,
    lemma_stream_read_narrow, lemma_stream_read_shift, lemma_stream_read_subfield,
    lemma_words_val_word_at,
};

verus! {

/// Pulls whole 32-bit words from a fixed buffer into a wide scratch
/// register and peels off requested bit counts.
pub struct BitReader {
    buffer: Vec<u32>,
    scratch: u64,
    num_bits: u32,
    num_words: usize,
    bits_read: u32,
    word_index: usize,
    scratch_bits: u32,
}

impl BitReader {
    /// The words of the backing buffer; a reader never changes them.
    pub closed spec fn words(self) -> Seq<u32> {
        self.buffer@
    }

    /// The total capacity in bits: 32 for each word of the buffer.
    pub closed spec fn capacity(self) -> nat {
        self.num_bits as nat
    }

    /// How many bits have been consumed so far.
    pub closed spec fn stream_len(self) -> nat {
        self.bits_read as nat
    }

    /// The reader's invariant between operations: the scratch register
    /// stages exactly the next `scratch_bits` bits of the stream, and the
    /// words pulled so far account for the bits consumed plus the staged
    /// ones.
    pub closed spec fn inv(self) -> bool {
        &&& self.buffer@.len() == self.num_words
        &&& self.num_bits == 32 * self.num_words
        &&& self.bits_read <= self.num_bits
        &&& self.scratch_bits <= 31
        &&& self.bits_read + self.scratch_bits == 32 * self.word_index
        &&& self.scratch as nat == stream_read(
            words_val(self.buffer@),
            self.bits_read as nat,
            self.scratch_bits as nat,
        )
    }

    /// The capacity is the buffer's, and the consumed bits fit it.
    pub proof fn lemma_props(self)
        requires
            self.inv(),
        ensures
            self.stream_len() <= self.capacity(),
            self.capacity() == 32 * self.words().len(),
            self.capacity() <= u32::MAX,
    {
    }

    /// Makes a reader over `buffer`, whose length gives the capacity. The
    /// buffer length is bounded so that the capacity in bits fits a 32-bit
    /// counter.
    pub fn new(buffer: Vec<u32>) -> (r: BitReader)
        requires
            buffer@.len() <= 0x07ff_ffff,
        ensures
            r.inv(),
            r.stream_len() == 0,
            r.capacity() == 32 * buffer@.len(),
            r.words() == buffer@,
    {
        let num_words = buffer.len();
        let r = BitReader {
            buffer,
            scratch: 0,
            num_words,
            num_bits: (num_words as u32) * 32,
            bits_read: 0,
            word_index: 0,
            scratch_bits: 0,
        };
        proof {
            lemma2_to64();
            lemma_pow2_pos(0);
            vstd::arithmetic::div_mod::lemma_mod_multiples_basic(
                (words_val(r.buffer@) / pow2(0)) as int,
                1,
            );
            assert(stream_read(words_val(r.buffer@), 0, 0) == 0);
        }
        r
    }

    /// How many bits have been consumed so far, as a machine value.
    pub fn consumed_bits(&self) -> (r: u32)
        ensures
            r as nat == self.stream_len(),
    {
        self.bits_read
    }

    /// The total capacity in bits, as a machine value.
    pub fn capacity_bits(&self) -> (r: u32)
        ensures
            r as nat == self.capacity(),
    {
        self.num_bits
    }

    /// Whether reading `bits` more bits would run past the capacity.
    pub fn would_overflow(&self, bits: u32) -> (r: bool)
        requires
            self.inv(),
        ensures
            r <==> self.stream_len() + bits > self.capacity(),
    {
        self.bits_read as u64 + bits as u64 > self.num_bits as u64
    }

    /// Reads the next `bits` bits of the stream and returns them as the low
    /// bits of the result: the `bits`-wide field at the cursor.
    pub fn read_bits(&mut self, bits: u32) -> (r: u32)
        requires
            old(self).inv(),
            bits <= 32,
            old(self).stream_len() + bits <= old(self).capacity(),
        ensures
            final(self).inv(),
            final(self).words() == old(self).words(),
            final(self).capacity() == old(self).capacity(),
            final(self).stream_len() == old(self).stream_len() + bits,
            r as nat == stream_read(words_val(old(self).words()), old(self).stream_len(), bits as nat),
            (r as nat) < pow2(bits as nat),
    {
        let ghost bv = words_val(self.buffer@);
        let ghost p = self.bits_read as nat;
        proof {
            lemma2_to64();
            lemma_stream_read_bound(bv, p, bits as nat);
        }
        self.bits_read = self.bits_read + bits;

        if self.scratch_bits < bits {
            proof {
                assert(32 * self.word_index < 32 * self.num_words) by (nonlinear_arith)
                    requires
                        32 * self.word_index == p + (self.scratch_bits as nat),
                        (self.scratch_bits as nat) < bits as nat,
                        p + (bits as nat) <= 32 * self.num_words,
                ;
            }
            let w = self.buffer[self.word_index];
            let ghost sc0 = self.scratch;
            let ghost sb32 = self.scratch_bits;
            let ghost sb = self.scratch_bits as nat;
            let staged: u64 = (w as u64) << self.scratch_bits;
            proof {
                vstd::arithmetic::power2::lemma2_to64_rest();
                if sb < 31 {
                    vstd::arithmetic::power2::lemma_pow2_strictly_increases(sb, 31);
                }
                vstd::arithmetic::power2::lemma_pow2_adds(32, 31);
                assert((w as u64) * pow2(sb) <= u64::MAX) by (nonlinear_arith)
                    requires
                        (w as u64) < pow2(32),
                        pow2(sb) <= pow2(31),
                        pow2(32) * pow2(31) == pow2(63),
                        pow2(63) <= u64::MAX,
                ;
                lemma_u64_shl_is_mul(w as u64, sb32 as u64);
                lemma_u64_shl_is_mul(1u64, sb32 as u64);
                lemma_stream_read_bound(bv, p, sb);
                assert(sc0 < (1u64 << sb32));
                assert(sc0 | staged == sc0 + staged) by (bit_vector)
                    requires
                        staged == (w as u64) << sb32,
                        sc0 < (1u64 << sb32),
                        sb32 <= 31u32,
                ;
            }
            self.scratch = self.scratch | staged;
            self.scratch_bits = self.scratch_bits + 32;
            self.word_index = self.word_index + 1;
            proof {
                // the pulled word is the 32-bit field right above the staged bits
                lemma_words_val_word_at(self.buffer@, self.word_index - 1);
                assert(w as nat == stream_read(bv, p + sb, 32));
                // staging it extends the staged field from sb to sb + 32 bits
                lemma_stream_read_concat(bv, p, sb, 32);
                vstd::arithmetic::mul::lemma_mul_is_commutative(w as int, pow2(sb) as int);
                assert(self.scratch as nat == stream_read(bv, p, sb + 32));
            }
        }

        let ghost sb1 = self.scratch_bits as nat;
        let ghost sc1 = self.scratch;
        proof {
            lemma_u64_shl_is_mul(1u64, bits as u64);
            lemma_pow2_pos(bits as nat);
            vstd::arithmetic::power2::lemma2_to64_rest();
            if (bits as nat) < 32 {
                vstd::arithmetic::power2::lemma_pow2_strictly_increases(bits as nat, 32);
            }
        }
        let output: u64 = self.scratch & ((1u64 << bits) - 1);
        proof {
            lemma_u64_low_bits_mask_is_mod(sc1, bits as nat);
            assert((1u64 << bits) - 1 == low_bits_mask(bits as nat) as u64);
            lemma_stream_read_narrow(bv, p, sb1, bits as nat);
            assert(output as nat == stream_read(bv, p, bits as nat));
            lemma_stream_read_bound(bv, p, bits as nat);
        }
        self.scratch = self.scratch >> bits;
        self.scratch_bits = self.scratch_bits - bits;
        proof {
            lemma_u64_shr_is_div(sc1, bits as u64);
            lemma_stream_read_shift(bv, p, sb1, bits as nat);
            assert(self.scratch as nat == stream_read(bv, p + bits as nat, (sb1 - bits as nat) as nat));
            lemma_stream_read_bound(bv, p + bits as nat, (sb1 - bits as nat) as nat);
        }
        output as u32
    }

    /// Pulls one whole word straight from the buffer, bypassing the scratch
    /// register. Only valid at a word boundary, where the register is
    /// empty.
    fn read_word_aligned(&mut self) -> (w: u32)
        requires
            old(self).inv(),
            old(self).stream_len() % 32 == 0,
            old(self).stream_len() + 32 <= old(self).capacity(),
        ensures
            final(self).inv(),
            final(self).words() == old(self).words(),
            final(self).capacity() == old(self).capacity(),
            final(self).stream_len() == old(self).stream_len() + 32,
            w as nat == stream_read(words_val(old(self).words()), old(self).stream_len(), 32),
    {
        proof {
            lemma2_to64();
            // at a word boundary the register is empty and the cursor sits
            // exactly at the next unpulled word
            vstd::arithmetic::div_mod::lemma_mod_adds(
                self.bits_read as int,
                self.scratch_bits as int,
                32,
            );
            vstd::arithmetic::div_mod::lemma_mod_multiples_basic(self.word_index as int, 32);
            vstd::arithmetic::div_mod::lemma_small_mod(self.scratch_bits as nat, 32);
            assert(self.scratch_bits == 0);
            assert(32 * self.word_index + 32 <= 32 * self.num_words);
            assert(self.word_index < self.num_words) by (nonlinear_arith)
                requires
                    32 * self.word_index + 32 <= 32 * self.num_words,
            ;
        }
        let w = self.buffer[self.word_index];
        self.word_index = self.word_index + 1;
        self.bits_read = self.bits_read + 32;
        proof {
            lemma_words_val_word_at(self.buffer@, self.word_index - 1);
            lemma_pow2_pos(0);
            vstd::arithmetic::div_mod::lemma_mod_multiples_basic(
                (words_val(self.buffer@) / pow2(self.bits_read as nat)) as int,
                1,
            );
            assert(stream_read(words_val(self.buffer@), self.bits_read as nat, 0) == 0);
        }
        w
    }

    /// Reads `num_bytes` bytes off the stream, which must stand at a byte
    /// boundary: byte `j` of the result is the 8-bit field at position
    /// `8 * j` past the cursor. Head and tail bytes go through the scratch
    /// register; the whole words between them are block-copied.
    pub fn read_bytes(&mut self, num_bytes: usize) -> (r: Vec<u8>)
        requires
            old(self).inv(),
            old(self).stream_len() % 8 == 0,
            old(self).stream_len() + 8 * num_bytes <= old(self).capacity(),
        ensures
            final(self).inv(),
            final(self).words() == old(self).words(),
            final(self).capacity() == old(self).capacity(),
            final(self).stream_len() == old(self).stream_len() + 8 * num_bytes,
            r@.len() == num_bytes,
            forall|j: int|
                0 <= j < num_bytes ==> r@[j] as nat == stream_read(
                    words_val(old(self).words()),
                    old(self).stream_len() + 8 * j as nat,
                    8,
                ),
    {
        let ghost bv = words_val(self.buffer@);
        let ghost len0 = self.stream_len();
        let ghost cap0 = self.capacity();
        let mut out: Vec<u8> = Vec::new();
        let mut i: usize = 0;
        // head: single bytes until the cursor stands at a word boundary
        while i < num_bytes && self.bits_read % 32 != 0
            invariant
                self.inv(),
                i <= num_bytes,
                out@.len() == i,
                self.words() == old(self).words(),
                bv == words_val(self.words()),
                self.stream_len() == len0 + 8 * i,
                len0 % 8 == 0,
                len0 + 8 * num_bytes <= cap0,
                self.capacity() == cap0,
                forall|j: int|
                    0 <= j < i ==> out@[j] as nat == stream_read(bv, len0 + 8 * j as nat, 8),
            decreases num_bytes - i,
        {
            let b = self.read_bits(8);
            proof {
                lemma2_to64();
                assert(b < 256);
            }
            out.push(b as u8);
            i = i + 1;
        }
        // bulk: whole words, four bytes at a time, straight from the buffer
        while i + 4 <= num_bytes && self.bits_read % 32 == 0
            invariant
                self.inv(),
                i <= num_bytes,
                out@.len() == i,
                self.words() == old(self).words(),
                bv == words_val(self.words()),
                self.stream_len() == len0 + 8 * i,
                len0 % 8 == 0,
                len0 + 8 * num_bytes <= cap0,
                self.capacity() == cap0,
                forall|j: int|
                    0 <= j < i ==> out@[j] as nat == stream_read(bv, len0 + 8 * j as nat, 8),
            decreases num_bytes - i,
        {
            let w = self.read_word_aligned();
            proof {
                assert(w as nat == stream_read(bv, len0 + 8 * i as nat, 32));
                assert((w & 0xff) < 0x100 && ((w >> 8u32) & 0xff) < 0x100 && ((w >> 16u32) & 0xff)
                    < 0x100 && ((w >> 24u32) & 0xff) < 0x100) by (bit_vector);
            }
            let b0 = (w & 0xff) as u8;
            let b1 = ((w >> 8u32) & 0xff) as u8;
            let b2 = ((w >> 16u32) & 0xff) as u8;
            let b3 = ((w >> 24u32) & 0xff) as u8;
            proof {
                self.lemma_word_bytes(bv, len0 + 8 * i as nat, w, b0, b1, b2, b3);
            }
            out.push(b0);
            out.push(b1);
            out.push(b2);
            out.push(b3);
            i = i + 4;
        }
        // tail: what is left past the last whole word
        while i < num_bytes
            invariant
                self.inv(),
                i <= num_bytes,
                out@.len() == i,
                self.words() == old(self).words(),
                bv == words_val(self.words()),
                self.stream_len() == len0 + 8 * i,
                len0 % 8 == 0,
                len0 + 8 * num_bytes <= cap0,
                self.capacity() == cap0,
                forall|j: int|
                    0 <= j < i ==> out@[j] as nat == stream_read(bv, len0 + 8 * j as nat, 8),
            decreases num_bytes - i,
        {
            let b = self.read_bits(8);
            proof {
                lemma2_to64();
                assert(b < 256);
            }
            out.push(b as u8);
            i = i + 1;
        }
        out
    }

    /// The four bytes of a word read at position `p` are the four 8-bit
    /// fields there.
    proof fn lemma_word_bytes(self, bv: nat, p: nat, w: u32, b0: u8, b1: u8, b2: u8, b3: u8)
        requires
            w as nat == stream_read(bv, p, 32),
            b0 == (w & 0xff) as u8,
            b1 == ((w >> 8u32) & 0xff) as u8,
            b2 == ((w >> 16u32) & 0xff) as u8,
            b3 == ((w >> 24u32) & 0xff) as u8,
        ensures
            b0 as nat == stream_read(bv, p, 8),
            b1 as nat == stream_read(bv, p + 8, 8),
            b2 as nat == stream_read(bv, p + 16, 8),
            b3 as nat == stream_read(bv, p + 24, 8),
    {
        lemma2_to64();
        assert(vstd::bits::low_bits_mask(8) == 0xff);
        lemma_u32_shr_is_div(w, 0);
        lemma_u32_shr_is_div(w, 8);
        lemma_u32_shr_is_div(w, 16);
        lemma_u32_shr_is_div(w, 24);
        lemma_u32_low_bits_mask_is_mod(w, 8);
        lemma_u32_low_bits_mask_is_mod(w >> 8u32, 8);
        lemma_u32_low_bits_mask_is_mod(w >> 16u32, 8);
        lemma_u32_low_bits_mask_is_mod(w >> 24u32, 8);
        lemma_pow2_pos(0);
        vstd::arithmetic::div_mod::lemma_mod_multiples_basic((w as nat / pow2(0)) as int, 1);
        lemma_stream_read_subfield(bv, p, 32, 0, 8);
        lemma_stream_read_subfield(bv, p, 32, 8, 8);
        lemma_stream_read_subfield(bv, p, 32, 16, 8);
        lemma_stream_read_subfield(bv, p, 32, 24, 8);
        assert(w as nat / pow2(0) == w as nat) by {
            vstd::arithmetic::div_mod::lemma_div_basics_1(w as int);
        }
    }

    /// Consumes the zero padding up to the next byte boundary and reports
    /// whether it really was zero: a non-zero padding value signals
    /// malformed input, yet the cursor has still advanced past it.
    pub fn read_align(&mut self) -> (r: bool)
        requires
            old(self).inv(),
            old(self).stream_len() + align_padding(old(self).stream_len()) <= old(self).capacity(),
        ensures
            final(self).inv(),
            final(self).words() == old(self).words(),
            final(self).capacity() == old(self).capacity(),
            final(self).stream_len() == old(self).stream_len() + align_padding(old(self).stream_len()),
            final(self).stream_len() % 8 == 0,
            r <==> stream_read(
                words_val(old(self).words()),
                old(self).stream_len(),
                align_padding(old(self).stream_len()),
            ) == 0,
    {
        let ghost len0 = self.stream_len();
        let ghost q = len0 / 8;
        let remainder_bits = self.bits_read % 8;
        if remainder_bits != 0 {
            let pad = 8 - remainder_bits;
            proof {
                vstd::arithmetic::div_mod::lemma_small_mod((8 - len0 % 8) as nat, 8);
                assert(align_padding(len0) == pad);
            }
            let value = self.read_bits(pad);
            proof {
                vstd::arithmetic::div_mod::lemma_fundamental_div_mod(len0 as int, 8);
                assert(self.stream_len() == 8 * (q + 1));
                vstd::arithmetic::div_mod::lemma_mod_multiples_basic(q as int + 1, 8);
                assert((8 * (q + 1)) % 8 == 0) by (nonlinear_arith)
                    requires
                        ((q as int + 1) * 8) % 8 == 0,
                ;
            }
            value == 0
        } else {
            proof {
                lemma2_to64();
                lemma_pow2_pos(0);
                vstd::arithmetic::div_mod::lemma_mod_multiples_basic(
                    (words_val(self.buffer@) / pow2(len0)) as int,
                    1,
                );
                assert(stream_read(words_val(self.buffer@), len0, 0) == 0);
                assert(align_padding(len0) == 0);
            }
            true
        }
    }
}

} // verus!
