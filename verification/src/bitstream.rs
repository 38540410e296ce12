//! Mathematical model of a little-endian bit stream.
//!
//! A stream of bits is modelled as a single natural number together with a
//! length: bit `j` of the stream is bit `j` of the number, so the word that
//! is filled first is the least significant. Appending a `b`-bit field `m`
//! at position `p` adds `m * pow2(p)`, and reading the `b`-bit field at
//! position `p` is `(v / pow2(p)) % pow2(b)`. The lemmas here say that such
//! fields never interfere: whatever stands below a field or is appended
//! above it, the field reads back exactly.

use vstd::prelude::*;
use vstd::arithmetic::power2::{pow2, lemma_pow2_adds, lemma_pow2_pos};
use vstd::arithmetic::div_mod::{
    lemma_breakdown, lemma_div_denominator, lemma_div_multiples_vanish_fancy,
    lemma_fundamental_div_mod, lemma_mod_bound, lemma_mod_mod, lemma_mod_multiples_vanish,
    lemma_basic_div, lemma_small_mod,
};
use vstd::arithmetic::mul::{
    lemma_mul_inequality, lemma_mul_is_commutative, lemma_mul_is_distributive_add_other_way,
};

verus! {

/// The value of a sequence of 32-bit words read as one bit stream: the first
/// word holds bits 0 to 31 (least significant), the next bits 32 to 63, and
/// so on.
pub open spec fn words_val(ws: Seq<u32>) -> nat
    decreases ws.len(),
{
    if ws.len() == 0 {
        0
    } else {
        ws[0] as nat + pow2(32) * words_val(ws.drop_first())
    }
}

/// The value of a byte sequence read as one bit stream: the first byte holds
/// bits 0 to 7 (least significant), and so on.
pub open spec fn bytes_val(bs: Seq<u8>) -> nat
    decreases bs.len(),
{
    if bs.len() == 0 {
        0
    } else {
        bs[0] as nat + 256 * bytes_val(bs.drop_first())
    }
}

/// The `bits`-wide field that begins `pos` bits into a stream whose value is `v`.
pub open spec fn stream_read(v: nat, pos: nat, bits: nat) -> nat {
    (v / pow2(pos)) % pow2(bits)
}

/// A field is always below `pow2` of its width.
pub proof fn lemma_stream_read_bound(v: nat, pos: nat, bits: nat)
    ensures
        stream_read(v, pos, bits) < pow2(bits),
{
    lemma_pow2_pos(pos);
    lemma_pow2_pos(bits);
    lemma_mod_bound((v / pow2(pos)) as int, pow2(bits) as int);
}

/// The value of a word sequence is below `pow2` of its bit length.
pub proof fn lemma_words_val_bound(ws: Seq<u32>)
    ensures
        words_val(ws) < pow2(32 * ws.len()),
    decreases ws.len(),
{
    if ws.len() == 0 {
        assert(pow2(0) == 1) by {
            vstd::arithmetic::power2::lemma2_to64();
        }
    } else {
        lemma_words_val_bound(ws.drop_first());
        lemma_pow2_adds(32, 32 * (ws.len() - 1) as nat);
        assert(32 * ws.len() == 32 + 32 * (ws.len() - 1) as nat);
        assert(pow2(32) == 0x100000000) by {
            vstd::arithmetic::power2::lemma2_to64();
        }
        // ws[0] + pow2(32) * tail <= (pow2(32) - 1) + pow2(32) * (pow2(rest) - 1)
        lemma_mul_inequality(
            words_val(ws.drop_first()) as int,
            pow2(32 * (ws.len() - 1) as nat) as int - 1,
            pow2(32) as int,
        );
        lemma_mul_is_commutative(
            pow2(32) as int,
            pow2(32 * (ws.len() - 1) as nat) as int - 1,
        );
        lemma_mul_is_distributive_add_other_way(
            pow2(32) as int,
            pow2(32 * (ws.len() - 1) as nat) as int,
            -1,
        );
    }
}

/// Splitting a word sequence at `k` splits its value at bit `32 * k`.
pub proof fn lemma_words_val_split(ws: Seq<u32>, k: int)
    requires
        0 <= k <= ws.len(),
    ensures
        words_val(ws) == words_val(ws.take(k)) + pow2(32 * k as nat) * words_val(ws.skip(k)),
    decreases k,
{
    if k == 0 {
        assert(ws.take(0).len() == 0);
        assert(ws.skip(0) == ws);
        assert(pow2(0) == 1) by {
            vstd::arithmetic::power2::lemma2_to64();
        }
        assert(words_val(ws.take(0)) == 0);
        assert(words_val(ws.skip(0)) == words_val(ws));
        assert(pow2(32 * 0) * words_val(ws.skip(0)) == words_val(ws)) by (nonlinear_arith)
            requires
                pow2(32 * 0) == 1,
                words_val(ws.skip(0)) == words_val(ws),
        ;
    } else {
        lemma_words_val_split(ws.drop_first(), k - 1);
        assert(ws.take(k).drop_first() == ws.drop_first().take(k - 1));
        assert(ws.skip(k) == ws.drop_first().skip(k - 1));
        assert(words_val(ws) == ws[0] as nat + pow2(32) * words_val(ws.drop_first()));
        assert(words_val(ws.take(k)) == ws[0] as nat + pow2(32) * words_val(
            ws.drop_first().take(k - 1),
        ));
        let t = words_val(ws.drop_first().take(k - 1));
        let s = words_val(ws.skip(k));
        let pk1 = pow2(32 * (k - 1) as nat);
        assert(words_val(ws.drop_first()) == t + pk1 * s);
        lemma_pow2_adds(32, 32 * (k - 1) as nat);
        assert(32 + 32 * (k - 1) as nat == 32 * k as nat);
        assert(words_val(ws) == words_val(ws.take(k)) + pow2(32 * k as nat) * s)
            by (nonlinear_arith)
            requires
                words_val(ws) == ws[0] as nat + pow2(32) * (t + pk1 * s),
                words_val(ws.take(k)) == ws[0] as nat + pow2(32) * t,
                pow2(32 * k as nat) == pow2(32) * pk1,
        ;
    }
}

/// The value of a single appended word: extending a prefix of `k` words by
/// one word raises the value by that word shifted up `32 * k` bits.
pub proof fn lemma_words_val_take_succ(ws: Seq<u32>, k: int)
    requires
        0 <= k < ws.len(),
    ensures
        words_val(ws.take(k + 1)) == words_val(ws.take(k)) + pow2(32 * k as nat) * ws[k] as nat,
{
    let front = ws.take(k + 1);
    lemma_words_val_split(front, k);
    assert(front.take(k) == ws.take(k));
    let last = front.skip(k);
    assert(last.len() == 1);
    assert(last[0] == ws[k]);
    assert(last.drop_first().len() == 0);
    assert(words_val(last.drop_first()) == 0);
    assert(words_val(last) == ws[k] as nat + pow2(32) * 0);
}

/// Two bit streams that agree on the low `32 * k` bits agree on every field
/// that lies inside them: appending anything above bit `32 * k` leaves those
/// fields as they were.
pub proof fn lemma_stream_read_concat(v: nat, pos: nat, a: nat, b: nat)
    ensures
        stream_read(v, pos, a) + pow2(a) * stream_read(v, pos + a, b) == stream_read(
            v,
            pos,
            a + b,
        ),
{
    let q = v / pow2(pos);
    lemma_pow2_pos(pos);
    lemma_pow2_pos(a);
    lemma_pow2_pos(b);
    // v / pow2(pos + a) == q / pow2(a)
    lemma_pow2_adds(pos, a);
    lemma_div_denominator(v as int, pow2(pos) as int, pow2(a) as int);
    // q % pow2(a + b) == pow2(a) * ((q / pow2(a)) % pow2(b)) + q % pow2(a)
    lemma_pow2_adds(a, b);
    lemma_breakdown(q as int, pow2(a) as int, pow2(b) as int);
}

/// A narrower read at the same position is the low part of a wider one.
pub proof fn lemma_stream_read_narrow(v: nat, pos: nat, a: nat, b: nat)
    requires
        b <= a,
    ensures
        stream_read(v, pos, a) % pow2(b) == stream_read(v, pos, b),
{
    let q = v / pow2(pos);
    lemma_pow2_pos(pos);
    lemma_pow2_pos(b);
    lemma_pow2_pos((a - b) as nat);
    lemma_pow2_adds(b, (a - b) as nat);
    lemma_mod_mod(q as int, pow2(b) as int, pow2((a - b) as nat) as int);
}

/// Dropping the low `b` bits of a field reads the rest of it.
pub proof fn lemma_stream_read_shift(v: nat, pos: nat, a: nat, b: nat)
    requires
        b <= a,
    ensures
        stream_read(v, pos, a) / pow2(b) == stream_read(v, pos + b, (a - b) as nat),
{
    let q = v / pow2(pos);
    lemma_pow2_pos(pos);
    lemma_pow2_pos(b);
    lemma_pow2_pos((a - b) as nat);
    // q % pow2(a) == pow2(b) * ((q / pow2(b)) % pow2(a - b)) + q % pow2(b)
    lemma_pow2_adds(b, (a - b) as nat);
    lemma_breakdown(q as int, pow2(b) as int, pow2((a - b) as nat) as int);
    lemma_mod_bound(q as int, pow2(b) as int);
    lemma_div_multiples_vanish_fancy(
        ((q / pow2(b)) % pow2((a - b) as nat)) as int,
        (q % pow2(b)) as int,
        pow2(b) as int,
    );
    // v / pow2(pos + b) == q / pow2(b)
    lemma_pow2_adds(pos, b);
    lemma_div_denominator(v as int, pow2(pos) as int, pow2(b) as int);
}

/// The round-trip law for one field: a `bits`-wide field `m` written at
/// position `pos` over a prefix that fits below `pos` reads back as exactly
/// `m`, whatever value `rest` is appended above it afterwards.
pub proof fn lemma_field_round_trip(prefix: nat, m: nat, rest: nat, pos: nat, bits: nat)
    requires
        prefix < pow2(pos),
        m < pow2(bits),
    ensures
        stream_read(prefix + pow2(pos) * (m + pow2(bits) * rest), pos, bits) == m,
{
    let v = prefix + pow2(pos) * (m + pow2(bits) * rest);
    lemma_pow2_pos(pos);
    lemma_pow2_pos(bits);
    // v / pow2(pos) == m + pow2(bits) * rest
    lemma_div_multiples_vanish_fancy(
        (m + pow2(bits) * rest) as int,
        prefix as int,
        pow2(pos) as int,
    );
    // (m + pow2(bits) * rest) % pow2(bits) == m
    lemma_mod_multiples_vanish(rest as int, m as int, pow2(bits) as int);
    lemma_small_mod(m, pow2(bits));
}

/// A stream value below `pow2(pos)` has only zero bits at `pos` and above.
pub proof fn lemma_stream_read_past_end(v: nat, pos: nat, bits: nat)
    requires
        v < pow2(pos),
    ensures
        stream_read(v, pos, bits) == 0,
{
    lemma_pow2_pos(pos);
    lemma_pow2_pos(bits);
    lemma_basic_div(v as int, pow2(pos) as int);
    lemma_small_mod(0, pow2(bits));
}

/// Appending a field does not disturb anything below the append position:
/// every field that lies wholly below `pos` reads the same after the append.
pub proof fn lemma_stream_read_below(v: nat, m: nat, pos: nat, p: nat, b: nat)
    requires
        v < pow2(pos),
        p + b <= pos,
    ensures
        stream_read(v + pow2(pos) * m, p, b) == stream_read(v, p, b),
{
    let w = v + pow2(pos) * m;
    lemma_pow2_pos(p);
    lemma_pow2_pos(b);
    lemma_pow2_pos(pos);
    // w / pow2(p) == v / pow2(p) + pow2(pos - p) * m
    lemma_pow2_adds(p, (pos - p) as nat);
    assert(pow2(pos) * m == pow2(p) * (pow2((pos - p) as nat) * m)) by (nonlinear_arith)
        requires
            pow2(pos) == pow2(p) * pow2((pos - p) as nat),
    ;
    lemma_fundamental_div_mod(v as int, pow2(p) as int);
    lemma_mod_bound(v as int, pow2(p) as int);
    lemma_div_multiples_vanish_fancy(
        (pow2((pos - p) as nat) * m + v / pow2(p)) as int,
        (v % pow2(p)) as int,
        pow2(p) as int,
    );
    assert(pow2(p) * (pow2((pos - p) as nat) * m + v / pow2(p)) + v % pow2(p) == w as int)
        by (nonlinear_arith)
        requires
            w == v + pow2(pos) * m,
            pow2(pos) * m == pow2(p) * (pow2((pos - p) as nat) * m),
            pow2(p) * (v / pow2(p)) + v % pow2(p) == v as int,
    ;
    assert(w / pow2(p) == pow2((pos - p) as nat) * m + v / pow2(p));
    // the added part is a multiple of pow2(b)
    lemma_pow2_adds(b, (pos - p - b) as nat);
    assert(pow2((pos - p) as nat) * m == pow2(b) * (pow2((pos - p - b) as nat) * m))
        by (nonlinear_arith)
        requires
            pow2((pos - p) as nat) == pow2(b) * pow2((pos - p - b) as nat),
    ;
    lemma_mod_multiples_vanish(
        (pow2((pos - p - b) as nat) * m) as int,
        (v / pow2(p)) as int,
        pow2(b) as int,
    );
}

/// Word `k` of a word sequence is the 32-bit field at position `32 * k` of
/// its value.
pub proof fn lemma_words_val_word_at(ws: Seq<u32>, k: int)
    requires
        0 <= k < ws.len(),
    ensures
        ws[k] as nat == stream_read(words_val(ws), 32 * k as nat, 32),
{
    let v = words_val(ws);
    let tail = ws.skip(k);
    lemma_words_val_split(ws, k);
    lemma_words_val_bound(ws.take(k));
    assert(ws.take(k).len() == k);
    lemma_pow2_pos(32 * k as nat);
    // v / pow2(32 * k) == words_val(tail)
    lemma_div_multiples_vanish_fancy(
        words_val(tail) as int,
        words_val(ws.take(k)) as int,
        pow2(32 * k as nat) as int,
    );
    // words_val(tail) % pow2(32) == tail[0] == ws[k]
    assert(tail.len() > 0);
    assert(words_val(tail) == tail[0] as nat + pow2(32) * words_val(tail.drop_first()));
    lemma_pow2_pos(32);
    lemma_mod_multiples_vanish(
        words_val(tail.drop_first()) as int,
        tail[0] as int,
        pow2(32) as int,
    );
    assert(pow2(32) == 0x100000000) by {
        vstd::arithmetic::power2::lemma2_to64();
    }
    lemma_small_mod(tail[0] as nat, pow2(32));
}

/// The value of a byte sequence is below `pow2` of its bit length.
pub proof fn lemma_bytes_val_bound(bs: Seq<u8>)
    ensures
        bytes_val(bs) < pow2(8 * bs.len()),
    decreases bs.len(),
{
    vstd::arithmetic::power2::lemma2_to64();
    if bs.len() > 0 {
        lemma_bytes_val_bound(bs.drop_first());
        lemma_pow2_adds(8, 8 * (bs.len() - 1) as nat);
        assert(8 * bs.len() == 8 + 8 * (bs.len() - 1) as nat);
        let t = bytes_val(bs.drop_first());
        assert(bs[0] as nat + 256 * t < 256 * pow2(8 * (bs.len() - 1) as nat)) by (nonlinear_arith)
            requires
                bs[0] < 256,
                t < pow2(8 * (bs.len() - 1) as nat),
        ;
    }
}

/// Splitting a byte sequence at `k` splits its value at bit `8 * k`.
pub proof fn lemma_bytes_val_split(bs: Seq<u8>, k: int)
    requires
        0 <= k <= bs.len(),
    ensures
        bytes_val(bs) == bytes_val(bs.take(k)) + pow2(8 * k as nat) * bytes_val(bs.skip(k)),
    decreases k,
{
    vstd::arithmetic::power2::lemma2_to64();
    if k == 0 {
        assert(bs.take(0).len() == 0);
        assert(bs.skip(0) == bs);
        assert(bytes_val(bs) == 0 + pow2(0) * bytes_val(bs)) by (nonlinear_arith)
            requires
                pow2(0) == 1,
        ;
    } else {
        lemma_bytes_val_split(bs.drop_first(), k - 1);
        assert(bs.take(k).drop_first() == bs.drop_first().take(k - 1));
        assert(bs.skip(k) == bs.drop_first().skip(k - 1));
        assert(bytes_val(bs) == bs[0] as nat + 256 * bytes_val(bs.drop_first()));
        assert(bytes_val(bs.take(k)) == bs[0] as nat + 256 * bytes_val(
            bs.drop_first().take(k - 1),
        ));
        let t = bytes_val(bs.drop_first().take(k - 1));
        let r = bytes_val(bs.skip(k));
        let pk1 = pow2(8 * (k - 1) as nat);
        lemma_pow2_adds(8, 8 * (k - 1) as nat);
        assert(8 + 8 * (k - 1) as nat == 8 * k as nat);
        assert(bytes_val(bs) == bytes_val(bs.take(k)) + pow2(8 * k as nat) * r)
            by (nonlinear_arith)
            requires
                bytes_val(bs) == bs[0] as nat + 256 * (t + pk1 * r),
                bytes_val(bs.take(k)) == bs[0] as nat + 256 * t,
                pow2(8 * k as nat) == 256 * pk1,
                pow2(8) == 256,
                pow2(8 * k as nat) == pow2(8) * pk1,
        ;
    }
}

/// The value of a single appended byte: extending a prefix of `k` bytes by
/// one byte raises the value by that byte shifted up `8 * k` bits.
pub proof fn lemma_bytes_val_take_succ(bs: Seq<u8>, k: int)
    requires
        0 <= k < bs.len(),
    ensures
        bytes_val(bs.take(k + 1)) == bytes_val(bs.take(k)) + pow2(8 * k as nat) * bs[k] as nat,
{
    let front = bs.take(k + 1);
    lemma_bytes_val_split(front, k);
    assert(front.take(k) == bs.take(k));
    let last = front.skip(k);
    assert(last.len() == 1);
    assert(last[0] == bs[k]);
    assert(last.drop_first().len() == 0);
    assert(bytes_val(last.drop_first()) == 0);
    assert(bytes_val(last) == bs[k] as nat + 256 * 0);
}

/// Byte `k` of a byte sequence is the 8-bit field at position `8 * k` of
/// its value.
pub proof fn lemma_bytes_val_byte_at(bs: Seq<u8>, k: int)
    requires
        0 <= k < bs.len(),
    ensures
        bs[k] as nat == stream_read(bytes_val(bs), 8 * k as nat, 8),
{
    let v = bytes_val(bs);
    let tail = bs.skip(k);
    lemma_bytes_val_split(bs, k);
    lemma_bytes_val_bound(bs.take(k));
    assert(bs.take(k).len() == k);
    lemma_pow2_pos(8 * k as nat);
    lemma_div_multiples_vanish_fancy(
        bytes_val(tail) as int,
        bytes_val(bs.take(k)) as int,
        pow2(8 * k as nat) as int,
    );
    assert(tail.len() > 0);
    assert(bytes_val(tail) == tail[0] as nat + 256 * bytes_val(tail.drop_first()));
    lemma_pow2_pos(8);
    vstd::arithmetic::power2::lemma2_to64();
    lemma_mod_multiples_vanish(
        bytes_val(tail.drop_first()) as int,
        tail[0] as int,
        pow2(8) as int,
    );
    lemma_small_mod(tail[0] as nat, pow2(8));
}

/// Two byte sequences of one length with one value are the same sequence.
pub proof fn lemma_bytes_val_injective(a: Seq<u8>, b: Seq<u8>)
    requires
        a.len() == b.len(),
        bytes_val(a) == bytes_val(b),
    ensures
        a == b,
    decreases a.len(),
{
    if a.len() > 0 {
        vstd::arithmetic::power2::lemma2_to64();
        lemma_bytes_val_byte_at(a, 0);
        lemma_bytes_val_byte_at(b, 0);
        lemma_pow2_pos(0);
        assert(a[0] == b[0]);
        let ta = a.drop_first();
        let tb = b.drop_first();
        assert(bytes_val(ta) == bytes_val(tb)) by (nonlinear_arith)
            requires
                a[0] as nat + 256 * bytes_val(ta) == b[0] as nat + 256 * bytes_val(tb),
                a[0] == b[0],
        ;
        lemma_bytes_val_injective(ta, tb);
        assert forall|i: int| 0 <= i < a.len() implies a[i] == b[i] by {
            if i > 0 {
                assert(a[i] == ta[i - 1]);
                assert(b[i] == tb[i - 1]);
            }
        }
        assert(a =~= b);
    } else {
        assert(a =~= b);
    }
}

/// A field inside a wider field is the same field of the whole stream.
pub proof fn lemma_stream_read_subfield(v: nat, p: nat, n: nat, q: nat, b: nat)
    requires
        q + b <= n,
    ensures
        stream_read(stream_read(v, p, n), q, b) == stream_read(v, p + q, b),
{
    lemma_stream_read_shift(v, p, n, q);
    lemma_stream_read_narrow(v, p + q, (n - q) as nat, b);
    lemma_stream_read_bound(v, p, n);
    lemma_pow2_pos(q);
    lemma_pow2_pos(b);
    // reading inside the extracted field first drops q bits, then keeps b
    assert(stream_read(stream_read(v, p, n), q, b) == (stream_read(v, p, n) / pow2(q)) % pow2(b));
}

} // verus!
