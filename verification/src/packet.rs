//! The packet envelope: a closed set of variant payloads behind a one-byte
//! discriminant, over the plain byte cursor of [`crate::byte_buffer`].
//!
//! Encoding writes the discriminant and then the variant's fields in
//! declared order, little-endian; the length-prefixed variant writes its
//! count first. Decoding reads the discriminant, builds the matching
//! variant with zeroed fields, and fills it from the buffer; an unknown
//! discriminant or a truncated payload is a decode failure reported to the
//! caller, never a silent coercion.

use vstd::prelude::*;
use crate::byte_buffer::{
    le16_at, le32_at, read_byte, read_int, read_short, u16_le_seq, u32_le_seq, write_byte,
    write_int, write_short, Buffer, lemma_u16_le_round_trip, lemma_u32_le_round_trip,
};

verus! {

/// The discriminant of [`PacketA`].
pub const TAG_A: u8 = 0;

/// The discriminant of [`PacketB`].
pub const TAG_B: u8 = 1;

/// The discriminant of [`PacketC`].
pub const TAG_C: u8 = 2;

/// Three fixed 32-bit fields.
#[derive(Debug, PartialEq, Eq, Structural, Clone, Copy)]
pub struct PacketA {
    pub x: u32,
    pub y: u32,
    pub z: u32,
}

/// A length-prefixed sequence of 32-bit elements.
#[derive(Debug, PartialEq, Eq, Clone)]
pub struct PacketB {
    pub num_elements: u32,
    pub elements: Vec<u32>,
}

/// A boolean, a 16-bit and a 32-bit field.
#[derive(Debug, PartialEq, Eq, Structural, Clone, Copy)]
pub struct PacketC {
    pub x: bool,
    pub y: u16,
    pub z: u32,
}

/// The wire bytes of the first `n` elements of `s`, each four little-endian
/// bytes, in order.
pub open spec fn elems_le(s: Seq<u32>, n: int) -> Seq<u8>
    decreases n,
{
    if n <= 0 {
        Seq::empty()
    } else {
        elems_le(s, n - 1) + u32_le_seq(s[n - 1])
    }
}

/// `n` elements take `4 * n` wire bytes.
pub proof fn lemma_elems_le_len(s: Seq<u32>, n: int)
    requires
        n >= 0,
    ensures
        elems_le(s, n).len() == 4 * n,
    decreases n,
{
    if n > 0 {
        lemma_elems_le_len(s, n - 1);
    }
}

/// Element `k` stands at wire offset `4 * k`.
pub proof fn lemma_elems_le_at(s: Seq<u32>, n: int, k: int)
    requires
        0 <= k < n,
    ensures
        elems_le(s, n).len() == 4 * n,
        elems_le(s, n).subrange(4 * k, 4 * k + 4) == u32_le_seq(s[k]),
    decreases n,
{
    lemma_elems_le_len(s, n);
    if k == n - 1 {
        lemma_elems_le_len(s, n - 1);
        assert(elems_le(s, n).subrange(4 * k, 4 * k + 4) =~= u32_le_seq(s[k]));
    } else {
        lemma_elems_le_at(s, n - 1, k);
        assert(elems_le(s, n).subrange(4 * k, 4 * k + 4) =~= elems_le(s, n - 1).subrange(
            4 * k,
            4 * k + 4,
        ));
    }
}

impl PacketA {
    /// The payload bytes: `x`, `y`, `z`, each little-endian.
    pub open spec fn encoding(self) -> Seq<u8> {
        u32_le_seq(self.x) + u32_le_seq(self.y) + u32_le_seq(self.z)
    }

    /// `a` is what decoding the payload at `i` yields.
    pub open spec fn decodes(d: Seq<u8>, i: int, a: PacketA) -> bool {
        &&& a.x as nat == le32_at(d, i)
        &&& a.y as nat == le32_at(d, i + 4)
        &&& a.z as nat == le32_at(d, i + 8)
    }

    /// Writes the three fields at the cursor.
    pub fn write(&self, buffer: &mut Buffer)
        requires
            old(buffer).wf(),
            old(buffer).index + 12 <= old(buffer).size,
        ensures
            final(buffer).wf(),
            final(buffer).size == old(buffer).size,
            final(buffer).index == old(buffer).index + 12,
            final(buffer).data@.len() == old(buffer).data@.len(),
            final(buffer).data@.subrange(
                old(buffer).index as int,
                old(buffer).index as int + 12,
            ) == self.encoding(),
            forall|j: int|
                0 <= j < old(buffer).data@.len() && !(old(buffer).index <= j < old(buffer).index
                    + 12) ==> final(buffer).data@[j] == old(buffer).data@[j],
    {
        let ghost i0 = buffer.index as int;
        write_int(buffer, self.x);
        let ghost d1 = buffer.data@;
        write_int(buffer, self.y);
        let ghost d2 = buffer.data@;
        write_int(buffer, self.z);
        proof {
            assert(buffer.data@.subrange(i0, i0 + 12) =~= self.encoding()) by {
                assert forall|j: int| 0 <= j < 12 implies buffer.data@[i0 + j]
                    == self.encoding()[j] by {
                    if j < 4 {
                        assert(d1[i0 + j] == d1.subrange(i0, i0 + 4)[j]);
                    } else if j < 8 {
                        assert(d2[i0 + j] == d2.subrange(i0 + 4, i0 + 8)[j - 4]);
                    } else {
                        assert(buffer.data@[i0 + j] == buffer.data@.subrange(i0 + 8, i0 + 12)[j
                            - 8]);
                    }
                }
            }
        }
    }

    /// Fills the three fields from the cursor; false, with nothing changed,
    /// when twelve bytes are not left.
    pub fn read(&mut self, buffer: &mut Buffer) -> (r: bool)
        requires
            old(buffer).wf(),
        ensures
            final(buffer).wf(),
            final(buffer).size == old(buffer).size,
            final(buffer).data == old(buffer).data,
            r <==> old(buffer).index + 12 <= old(buffer).size,
            !r ==> *final(self) == *old(self) && final(buffer).index == old(buffer).index,
            r ==> final(buffer).index == old(buffer).index + 12 && PacketA::decodes(
                old(buffer).data@,
                old(buffer).index as int,
                *final(self),
            ),
    {
        if buffer.size - buffer.index < 12 {
            return false;
        }
        self.x = read_int(buffer);
        self.y = read_int(buffer);
        self.z = read_int(buffer);
        true
    }
}

impl PacketC {
    /// The payload bytes: `x` as one byte (1 or 0), then `y` and `z`
    /// little-endian.
    pub open spec fn encoding(self) -> Seq<u8> {
        seq![
            if self.x {
                1u8
            } else {
                0u8
            },
        ] + u16_le_seq(self.y) + u32_le_seq(self.z)
    }

    /// `c` is what decoding the payload at `i` yields.
    pub open spec fn decodes(d: Seq<u8>, i: int, c: PacketC) -> bool {
        &&& c.x <==> d[i] == 1
        &&& c.y as nat == le16_at(d, i + 1)
        &&& c.z as nat == le32_at(d, i + 3)
    }

    /// Writes the three fields at the cursor.
    pub fn write(&self, buffer: &mut Buffer)
        requires
            old(buffer).wf(),
            old(buffer).index + 7 <= old(buffer).size,
        ensures
            final(buffer).wf(),
            final(buffer).size == old(buffer).size,
            final(buffer).index == old(buffer).index + 7,
            final(buffer).data@.len() == old(buffer).data@.len(),
            final(buffer).data@.subrange(
                old(buffer).index as int,
                old(buffer).index as int + 7,
            ) == self.encoding(),
            forall|j: int|
                0 <= j < old(buffer).data@.len() && !(old(buffer).index <= j < old(buffer).index
                    + 7) ==> final(buffer).data@[j] == old(buffer).data@[j],
    {
        let ghost i0 = buffer.index as int;
        write_byte(buffer, if self.x { 1 } else { 0 });
        let ghost d1 = buffer.data@;
        write_short(buffer, self.y);
        let ghost d2 = buffer.data@;
        write_int(buffer, self.z);
        proof {
            assert(buffer.data@.subrange(i0, i0 + 7) =~= self.encoding()) by {
                assert forall|j: int| 0 <= j < 7 implies buffer.data@[i0 + j]
                    == self.encoding()[j] by {
                    if j < 1 {
                        assert(d1[i0] == self.encoding()[0]);
                    } else if j < 3 {
                        assert(d2[i0 + j] == d2.subrange(i0 + 1, i0 + 3)[j - 1]);
                    } else {
                        assert(buffer.data@[i0 + j] == buffer.data@.subrange(i0 + 3, i0 + 7)[j
                            - 3]);
                    }
                }
            }
        }
    }

    /// Fills the three fields from the cursor; false, with nothing changed,
    /// when seven bytes are not left.
    pub fn read(&mut self, buffer: &mut Buffer) -> (r: bool)
        requires
            old(buffer).wf(),
        ensures
            final(buffer).wf(),
            final(buffer).size == old(buffer).size,
            final(buffer).data == old(buffer).data,
            r <==> old(buffer).index + 7 <= old(buffer).size,
            !r ==> *final(self) == *old(self) && final(buffer).index == old(buffer).index,
            r ==> final(buffer).index == old(buffer).index + 7 && PacketC::decodes(
                old(buffer).data@,
                old(buffer).index as int,
                *final(self),
            ),
    {
        if buffer.size - buffer.index < 7 {
            return false;
        }
        self.x = read_byte(buffer) == 1;
        self.y = read_short(buffer);
        self.z = read_int(buffer);
        true
    }
}


impl PacketB {
    /// The payload bytes: the element count, then that many elements, each
    /// little-endian.
    pub open spec fn encoding(self) -> Seq<u8> {
        u32_le_seq(self.num_elements) + elems_le(self.elements@, self.num_elements as int)
    }

    /// A count no larger than the elements on hand: what `write` needs.
    pub open spec fn wf(self) -> bool {
        self.num_elements as nat <= self.elements@.len()
    }

    /// `b`, built over the prior elements `prior`, is what decoding the
    /// payload at `i` yields: the count, then that many elements appended
    /// after `prior`.
    pub open spec fn decodes_after(d: Seq<u8>, i: int, prior: Seq<u32>, b: PacketB) -> bool {
        &&& b.num_elements as nat == le32_at(d, i)
        &&& b.elements@.len() == prior.len() + le32_at(d, i)
        &&& b.elements@.take(prior.len() as int) == prior
        &&& forall|k: int|
            prior.len() <= k < prior.len() + le32_at(d, i) ==> (#[trigger] b.elements@[k]) as nat
                == le32_at(d, i + 4 + 4 * (k - prior.len()))
    }

    /// Writes the count and the first `num_elements` elements at the
    /// cursor.
    pub fn write(&self, buffer: &mut Buffer)
        requires
            old(buffer).wf(),
            self.wf(),
            old(buffer).index + 4 + 4 * (self.num_elements as int) <= old(buffer).size,
        ensures
            final(buffer).wf(),
            final(buffer).size == old(buffer).size,
            final(buffer).index == old(buffer).index + 4 + 4 * (self.num_elements as int),
            final(buffer).data@.len() == old(buffer).data@.len(),
            final(buffer).data@.subrange(
                old(buffer).index as int,
                old(buffer).index as int + 4 + 4 * (self.num_elements as int),
            ) == self.encoding(),
            forall|j: int|
                0 <= j < old(buffer).data@.len() && !(old(buffer).index <= j < old(buffer).index
                    + 4 + 4 * (self.num_elements as int)) ==> final(buffer).data@[j] == old(
                    buffer,
                ).data@[j],
    {
        let ghost i0 = buffer.index as int;
        let ghost d0 = buffer.data@;
        let ghost s = self.elements@;
        let n = self.num_elements;
        write_int(buffer, n);
        let mut i: u32 = 0;
        proof {
            lemma_elems_le_len(s, 0);
        }
        while i < n
            invariant
                buffer.wf(),
                self.wf(),
                i <= n,
                i0 == old(buffer).index as int,
                d0 == old(buffer).data@,
                s == self.elements@,
                n == self.num_elements,
                buffer.size == old(buffer).size,
                buffer.data@.len() == d0.len(),
                i0 + 4 + 4 * (n as int) <= buffer.size,
                buffer.index == i0 + 4 + 4 * (i as int),
                buffer.data@.subrange(i0, i0 + 4) == u32_le_seq(n),
                buffer.data@.subrange(i0 + 4, buffer.index as int) == elems_le(s, i as int),
                forall|j: int|
                    0 <= j < d0.len() && !(i0 <= j < i0 + 4 + 4 * (i as int)) ==> buffer.data@[j]
                        == d0[j],
            decreases n - i,
        {
            let ghost dpre = buffer.data@;
            let ghost ipre = buffer.index as int;
            write_int(buffer, self.elements[i as usize]);
            proof {
                lemma_elems_le_len(s, i as int);
                lemma_elems_le_len(s, i as int + 1);
                assert forall|m: int| i0 <= m < ipre implies buffer.data@[m] == dpre[m] by {
                    assert(!(ipre <= m < ipre + 4));
                }
                assert(buffer.data@.subrange(i0, i0 + 4) =~= dpre.subrange(i0, i0 + 4));
                assert(buffer.data@.subrange(i0 + 4, buffer.index as int) =~= elems_le(
                    s,
                    i as int + 1,
                )) by {
                    assert(elems_le(s, i as int + 1) == elems_le(s, i as int) + u32_le_seq(
                        s[i as int],
                    ));
                    assert(buffer.data@.subrange(ipre, ipre + 4) == u32_le_seq(s[i as int]));
                    assert forall|j: int| i0 + 4 <= j < i0 + 4 + 4 * (i as int) + 4 implies (
                    #[trigger] buffer.data@[j]) == elems_le(s, i as int + 1)[j - i0 - 4] by {
                        if j < ipre {
                            assert(buffer.data@[j] == dpre[j]);
                            assert(dpre[j] == dpre.subrange(i0 + 4, ipre)[j - i0 - 4]);
                        } else {
                            assert(buffer.data@[j] == buffer.data@.subrange(
                                ipre,
                                ipre + 4,
                            )[j - ipre]);
                        }
                    }
                }
            }
            i = i + 1;
        }
        proof {
            lemma_elems_le_len(s, n as int);
            assert(buffer.data@.subrange(i0, i0 + 4 + 4 * (n as int)) =~= self.encoding()) by {
                assert forall|j: int| i0 <= j < i0 + 4 + 4 * (n as int) implies (
                #[trigger] buffer.data@[j]) == self.encoding()[j - i0] by {
                    if j < i0 + 4 {
                        assert(buffer.data@[j] == buffer.data@.subrange(i0, i0 + 4)[j - i0]);
                    } else {
                        assert(buffer.data@[j] == buffer.data@.subrange(
                            i0 + 4,
                            i0 + 4 + 4 * (n as int),
                        )[j - i0 - 4]);
                    }
                }
            }
        }
    }

    /// Reads the count and grows the element list by that many decoded
    /// elements; false, with nothing changed, when the count or the
    /// elements it declares are not all left in the buffer.
    pub fn read(&mut self, buffer: &mut Buffer) -> (r: bool)
        requires
            old(buffer).wf(),
        ensures
            final(buffer).wf(),
            final(buffer).size == old(buffer).size,
            final(buffer).data == old(buffer).data,
            r <==> old(buffer).index + 4 <= old(buffer).size && old(buffer).index + 4 + 4 * le32_at(
                old(buffer).data@,
                old(buffer).index as int,
            ) <= old(buffer).size,
            !r ==> *final(self) == *old(self) && final(buffer).index == old(buffer).index,
            r ==> final(buffer).index == old(buffer).index + 4 + 4 * le32_at(
                old(buffer).data@,
                old(buffer).index as int,
            ) && PacketB::decodes_after(
                old(buffer).data@,
                old(buffer).index as int,
                old(self).elements@,
                *final(self),
            ),
    {
        let ghost i0 = buffer.index as int;
        let ghost d = buffer.data@;
        let ghost prior = self.elements@;
        if buffer.size - buffer.index < 4 {
            return false;
        }
        let n = read_int(buffer);
        if (buffer.size - buffer.index) / 4 < n as usize {
            buffer.index = buffer.index - 4;
            return false;
        }
        self.num_elements = n;
        let mut i: u32 = 0;
        while i < n
            invariant
                buffer.wf(),
                i <= n,
                i0 == old(buffer).index as int,
                d == old(buffer).data@,
                prior == old(self).elements@,
                n as nat == le32_at(d, i0),
                buffer.data == old(buffer).data,
                buffer.size == old(buffer).size,
                i0 + 4 + 4 * (n as int) <= buffer.size,
                buffer.index == i0 + 4 + 4 * (i as int),
                self.num_elements == n,
                self.elements@.len() == prior.len() + i,
                self.elements@.take(prior.len() as int) == prior,
                forall|k: int|
                    prior.len() <= k < prior.len() + i ==> (#[trigger] self.elements@[k]) as nat
                        == le32_at(d, i0 + 4 + 4 * (k - prior.len())),
            decreases n - i,
        {
            let e = read_int(buffer);
            self.elements.push(e);
            proof {
                assert(self.elements@.take(prior.len() as int) =~= prior);
            }
            i = i + 1;
        }
        true
    }
}


/// A tagged union over the closed variant set: one discriminant byte, then
/// the variant's own payload.
#[derive(Debug, PartialEq, Eq, Clone)]
pub enum Packet {
    A(PacketA),
    B(PacketB),
    C(PacketC),
}

impl Packet {
    /// The wire bytes: the discriminant, then the payload.
    pub open spec fn encoding(self) -> Seq<u8> {
        match self {
            Packet::A(p) => seq![TAG_A] + p.encoding(),
            Packet::B(p) => seq![TAG_B] + p.encoding(),
            Packet::C(p) => seq![TAG_C] + p.encoding(),
        }
    }

    /// What `write` asks of a packet: a length-prefixed variant counts no
    /// more elements than it holds.
    pub open spec fn wf(self) -> bool {
        match self {
            Packet::B(p) => p.wf(),
            _ => true,
        }
    }

    /// Whether the bytes of `d` from `i` to the end of `sz` begin with one
    /// whole decodable packet: a known discriminant and a complete payload.
    pub open spec fn can_decode(d: Seq<u8>, i: int, sz: int) -> bool {
        i + 1 <= sz && ((d[i] == TAG_A && i + 13 <= sz) || (d[i] == TAG_B && i + 5 <= sz && i + 5
            + 4 * le32_at(d, i + 1) <= sz) || (d[i] == TAG_C && i + 8 <= sz))
    }

    /// How many bytes the packet at `i` occupies on the wire.
    pub open spec fn decoded_len(d: Seq<u8>, i: int) -> int {
        if d[i] == TAG_A {
            13
        } else if d[i] == TAG_B {
            5 + 4 * le32_at(d, i + 1) as int
        } else {
            8
        }
    }

    /// `p` is what decoding the bytes at `i` yields: the variant of the
    /// discriminant, its fields filled from the payload (a length-prefixed
    /// variant starting from no elements).
    pub open spec fn decodes_to(d: Seq<u8>, i: int, p: Packet) -> bool {
        match p {
            Packet::A(a) => d[i] == TAG_A && PacketA::decodes(d, i + 1, a),
            Packet::B(b) => d[i] == TAG_B && PacketB::decodes_after(d, i + 1, Seq::empty(), b),
            Packet::C(c) => d[i] == TAG_C && PacketC::decodes(d, i + 1, c),
        }
    }

    /// Writes the discriminant, then the variant's fields.
    pub fn write(&self, buffer: &mut Buffer)
        requires
            old(buffer).wf(),
            self.wf(),
            old(buffer).index + self.encoding().len() <= old(buffer).size,
        ensures
            final(buffer).wf(),
            final(buffer).size == old(buffer).size,
            final(buffer).index == old(buffer).index + self.encoding().len(),
            final(buffer).data@.len() == old(buffer).data@.len(),
            final(buffer).data@.subrange(
                old(buffer).index as int,
                old(buffer).index + self.encoding().len(),
            ) == self.encoding(),
            forall|j: int|
                0 <= j < old(buffer).data@.len() && !(old(buffer).index <= j < old(buffer).index
                    + self.encoding().len()) ==> final(buffer).data@[j] == old(buffer).data@[j],
    {
        let ghost i0 = buffer.index as int;
        match self {
            Packet::A(packet) => {
                write_byte(buffer, TAG_A);
                let ghost d1 = buffer.data@;
                packet.write(buffer);
                proof {
                    assert(d1.subrange(i0, i0 + 1) =~= seq![TAG_A]);
                    Packet::lemma_assemble(buffer.data@, d1, i0, seq![TAG_A], packet.encoding());
                }
            },
            Packet::B(packet) => {
                proof {
                    lemma_elems_le_len(packet.elements@, packet.num_elements as int);
                }
                write_byte(buffer, TAG_B);
                let ghost d1 = buffer.data@;
                packet.write(buffer);
                proof {
                    assert(d1.subrange(i0, i0 + 1) =~= seq![TAG_B]);
                    Packet::lemma_assemble(buffer.data@, d1, i0, seq![TAG_B], packet.encoding());
                }
            },
            Packet::C(packet) => {
                write_byte(buffer, TAG_C);
                let ghost d1 = buffer.data@;
                packet.write(buffer);
                proof {
                    assert(d1.subrange(i0, i0 + 1) =~= seq![TAG_C]);
                    Packet::lemma_assemble(buffer.data@, d1, i0, seq![TAG_C], packet.encoding());
                }
            },
        }
    }

    /// A discriminant byte standing right below a written payload reads
    /// back as their concatenation.
    proof fn lemma_assemble(d2: Seq<u8>, d1: Seq<u8>, i0: int, head: Seq<u8>, body: Seq<u8>)
        requires
            0 <= i0,
            d1.len() == d2.len(),
            i0 + head.len() + body.len() <= d1.len(),
            d1.subrange(i0, i0 + head.len() as int) == head,
            d2.subrange(i0 + head.len() as int, i0 + head.len() + body.len()) == body,
            forall|j: int|
                0 <= j < d1.len() && !(i0 + head.len() <= j < i0 + head.len() + body.len())
                    ==> d2[j] == d1[j],
        ensures
            d2.subrange(i0, i0 + head.len() + body.len()) == head + body,
    {
        let h = head.len() as int;
        let b = body.len() as int;
        assert forall|j: int| i0 <= j < i0 + h + b implies (#[trigger] d2[j]) == (head + body)[j
            - i0] by {
            if j < i0 + h {
                assert(d2[j] == d1[j]);
                assert(d1[j] == d1.subrange(i0, i0 + h)[j - i0]);
            } else {
                assert(d2[j] == d2.subrange(i0 + h, i0 + h + b)[j - i0 - h]);
            }
        }
        assert(d2.subrange(i0, i0 + h + b) =~= head + body);
    }

    /// Fills the held variant's fields from the cursor, without a
    /// discriminant; false, with nothing changed, when the payload is not
    /// all there.
    pub fn read(&mut self, buffer: &mut Buffer) -> (r: bool)
        requires
            old(buffer).wf(),
        ensures
            final(buffer).wf(),
            final(buffer).size == old(buffer).size,
            final(buffer).data == old(buffer).data,
            !r ==> *final(self) == *old(self) && final(buffer).index == old(buffer).index,
            (*old(self)) is A ==> (r <==> old(buffer).index + 12 <= old(buffer).size),
            (*old(self)) is C ==> (r <==> old(buffer).index + 7 <= old(buffer).size),
            (*old(self)) is B ==> (r <==> old(buffer).index + 4 <= old(buffer).size && old(
                buffer,
            ).index + 4 + 4 * le32_at(old(buffer).data@, old(buffer).index as int) <= old(
                buffer,
            ).size),
            r && (*old(self)) is A ==> (*final(self)) is A && PacketA::decodes(
                old(buffer).data@,
                old(buffer).index as int,
                (*final(self))->A_0,
            ) && final(buffer).index == old(buffer).index + 12,
            r && (*old(self)) is C ==> (*final(self)) is C && PacketC::decodes(
                old(buffer).data@,
                old(buffer).index as int,
                (*final(self))->C_0,
            ) && final(buffer).index == old(buffer).index + 7,
            r && (*old(self)) is B ==> (*final(self)) is B && PacketB::decodes_after(
                old(buffer).data@,
                old(buffer).index as int,
                (*old(self))->B_0.elements@,
                (*final(self))->B_0,
            ) && final(buffer).index == old(buffer).index + 4 + 4 * le32_at(
                old(buffer).data@,
                old(buffer).index as int,
            ),
    {
        match self {
            Packet::A(packet) => packet.read(buffer),
            Packet::B(packet) => packet.read(buffer),
            Packet::C(packet) => packet.read(buffer),
        }
    }

    /// Reads the discriminant at the cursor, builds the matching variant
    /// with zeroed fields, and fills it from the buffer. `None` on an
    /// unknown discriminant or a payload that is not all there: corrupt or
    /// version-mismatched input is a decode failure, never a guess.
    pub fn new(buffer: &mut Buffer) -> (r: Option<Packet>)
        requires
            old(buffer).wf(),
        ensures
            final(buffer).wf(),
            final(buffer).size == old(buffer).size,
            final(buffer).data == old(buffer).data,
            r is Some <==> Packet::can_decode(
                old(buffer).data@,
                old(buffer).index as int,
                old(buffer).size as int,
            ),
            r matches Some(p) ==> Packet::decodes_to(
                old(buffer).data@,
                old(buffer).index as int,
                p,
            ) && final(buffer).index == old(buffer).index + Packet::decoded_len(
                old(buffer).data@,
                old(buffer).index as int,
            ),
            r is None ==> final(buffer).index == old(buffer).index,
    {
        if buffer.size - buffer.index < 1 {
            return None;
        }
        let packet_type = read_byte(buffer);
        let mut packet = if packet_type == TAG_A {
            Packet::A(PacketA { x: 0, y: 0, z: 0 })
        } else if packet_type == TAG_B {
            Packet::B(PacketB { num_elements: 0, elements: Vec::new() })
        } else if packet_type == TAG_C {
            Packet::C(PacketC { x: false, y: 0, z: 0 })
        } else {
            buffer.index = buffer.index - 1;
            return None;
        };
        let ok = packet.read(buffer);
        if !ok {
            buffer.index = buffer.index - 1;
            return None;
        }
        Some(packet)
    }
}


/// Two packets that carry the same fields: the same variant, and for the
/// length-prefixed one the same count and the same elements.
pub open spec fn packet_equivalent(p: Packet, q: Packet) -> bool {
    match (p, q) {
        (Packet::A(a), Packet::A(b)) => a == b,
        (Packet::B(a), Packet::B(b)) => a.num_elements == b.num_elements && a.elements@
            == b.elements@,
        (Packet::C(a), Packet::C(b)) => a == b,
        _ => false,
    }
}

/// A packet that decodes back to exactly what was encoded: for the
/// length-prefixed variant the count must equal the elements on hand,
/// since only the counted elements go on the wire.
pub open spec fn packet_exact(p: Packet) -> bool {
    match p {
        Packet::B(b) => b.num_elements as nat == b.elements@.len(),
        _ => true,
    }
}

/// Where each part of a three-part concatenation stands.
proof fn lemma_concat3_parts(x: Seq<u8>, y: Seq<u8>, z: Seq<u8>)
    ensures
        forall|j: int| 0 <= j < x.len() ==> #[trigger] (x + y + z)[j] == x[j],
        forall|j: int|
            x.len() <= j < x.len() + y.len() ==> #[trigger] (x + y + z)[j] == y[j - x.len()],
        forall|j: int|
            x.len() + y.len() <= j < x.len() + y.len() + z.len() ==> #[trigger] (x + y + z)[j]
                == z[j - x.len() - y.len()],
{
}

/// The fields that the wire bytes of a fixed-field packet pin down.
proof fn lemma_wire_fields_a(a: PacketA, d: Seq<u8>, i: int)
    requires
        0 <= i,
        i + 13 <= d.len(),
        d.subrange(i, i + 13) == Packet::A(a).encoding(),
    ensures
        d[i] == TAG_A,
        le32_at(d, i + 1) == a.x as nat,
        le32_at(d, i + 5) == a.y as nat,
        le32_at(d, i + 9) == a.z as nat,
{
    let enc = Packet::A(a).encoding();
    assert forall|m: int| 0 <= m < 13 implies d[i + m] == enc[m] by {
        assert(d[i + m] == d.subrange(i, i + 13)[m]);
    }
    lemma_concat3_parts(u32_le_seq(a.x), u32_le_seq(a.y), u32_le_seq(a.z));
    assert(d[i] == d.subrange(i, i + 13)[0]);
    assert(enc[0] == seq![TAG_A][0]);
    assert(d.subrange(i + 1, i + 5) =~= u32_le_seq(a.x)) by {
        assert forall|m: int| 0 <= m < 4 implies d.subrange(i + 1, i + 5)[m] == u32_le_seq(
            a.x,
        )[m] by {
            assert(d.subrange(i + 1, i + 5)[m] == d[i + 1 + m]);
            assert(d[i + (1 + m)] == enc[1 + m]);
            assert(enc[1 + m] == (u32_le_seq(a.x) + u32_le_seq(a.y) + u32_le_seq(a.z))[0 + m]);
        }
    }
    assert(d.subrange(i + 5, i + 9) =~= u32_le_seq(a.y)) by {
        assert forall|m: int| 0 <= m < 4 implies d.subrange(i + 5, i + 9)[m] == u32_le_seq(
            a.y,
        )[m] by {
            assert(d.subrange(i + 5, i + 9)[m] == d[i + 5 + m]);
            assert(d[i + (5 + m)] == enc[5 + m]);
            assert(enc[5 + m] == (u32_le_seq(a.x) + u32_le_seq(a.y) + u32_le_seq(a.z))[4 + m]);
        }
    }
    assert(d.subrange(i + 9, i + 13) =~= u32_le_seq(a.z)) by {
        assert forall|m: int| 0 <= m < 4 implies d.subrange(i + 9, i + 13)[m] == u32_le_seq(
            a.z,
        )[m] by {
            assert(d.subrange(i + 9, i + 13)[m] == d[i + 9 + m]);
            assert(d[i + (9 + m)] == enc[9 + m]);
            assert(enc[9 + m] == (u32_le_seq(a.x) + u32_le_seq(a.y) + u32_le_seq(a.z))[8 + m]);
        }
    }
    lemma_u32_le_round_trip(d, i + 1, a.x);
    lemma_u32_le_round_trip(d, i + 5, a.y);
    lemma_u32_le_round_trip(d, i + 9, a.z);
}

/// The fields that the wire bytes of a mixed-field packet pin down.
proof fn lemma_wire_fields_c(c: PacketC, d: Seq<u8>, i: int)
    requires
        0 <= i,
        i + 8 <= d.len(),
        d.subrange(i, i + 8) == Packet::C(c).encoding(),
    ensures
        d[i] == TAG_C,
        d[i + 1] == if c.x {
            1u8
        } else {
            0u8
        },
        le16_at(d, i + 2) == c.y as nat,
        le32_at(d, i + 4) == c.z as nat,
{
    let enc = Packet::C(c).encoding();
    assert forall|m: int| 0 <= m < 8 implies d[i + m] == enc[m] by {
        assert(d[i + m] == d.subrange(i, i + 8)[m]);
    }
    lemma_concat3_parts(
        seq![
            if c.x {
                1u8
            } else {
                0u8
            },
        ],
        u16_le_seq(c.y),
        u32_le_seq(c.z),
    );
    assert(enc[1] == (seq![
        if c.x {
            1u8
        } else {
            0u8
        },
    ] + u16_le_seq(c.y) + u32_le_seq(c.z))[0]);
    assert(d[i] == d.subrange(i, i + 8)[0]);
    assert(enc[0] == seq![TAG_C][0]);
    assert(d[i + 1] == d.subrange(i, i + 8)[1]);
    let flag = seq![
        if c.x {
            1u8
        } else {
            0u8
        },
    ];
    assert(d.subrange(i + 2, i + 4) =~= u16_le_seq(c.y)) by {
        assert forall|m: int| 0 <= m < 2 implies d.subrange(i + 2, i + 4)[m] == u16_le_seq(
            c.y,
        )[m] by {
            assert(d.subrange(i + 2, i + 4)[m] == d[i + 2 + m]);
            assert(d[i + (2 + m)] == enc[2 + m]);
            assert(enc[2 + m] == (flag + u16_le_seq(c.y) + u32_le_seq(c.z))[1 + m]);
        }
    }
    assert(d.subrange(i + 4, i + 8) =~= u32_le_seq(c.z)) by {
        assert forall|m: int| 0 <= m < 4 implies d.subrange(i + 4, i + 8)[m] == u32_le_seq(
            c.z,
        )[m] by {
            assert(d.subrange(i + 4, i + 8)[m] == d[i + 4 + m]);
            assert(d[i + (4 + m)] == enc[4 + m]);
            assert(enc[4 + m] == (flag + u16_le_seq(c.y) + u32_le_seq(c.z))[3 + m]);
        }
    }
    lemma_u16_le_round_trip(d, i + 2, c.y);
    lemma_u32_le_round_trip(d, i + 4, c.z);
}

/// The count and elements that the wire bytes of a length-prefixed packet
/// pin down.
#[verifier::rlimit(50)]
proof fn lemma_wire_fields_b(b: PacketB, d: Seq<u8>, i: int)
    requires
        0 <= i,
        b.num_elements as nat == b.elements@.len(),
        i + 5 + 4 * (b.num_elements as int) <= d.len(),
        d.subrange(i, i + 5 + 4 * (b.num_elements as int)) == Packet::B(b).encoding(),
    ensures
        d[i] == TAG_B,
        le32_at(d, i + 1) == b.num_elements as nat,
        forall|k: int|
            0 <= k < b.num_elements ==> #[trigger] le32_at(d, i + 5 + 4 * k)
                == b.elements@[k] as nat,
{
    let s = b.elements@;
    let n = b.num_elements as int;
    let enc = Packet::B(b).encoding();
    lemma_elems_le_len(s, n);
    assert forall|m: int| 0 <= m < 5 + 4 * n implies d[i + m] == enc[m] by {
        assert(d[i + m] == d.subrange(i, i + 5 + 4 * n)[m]);
    }
    assert(d[i] == d.subrange(i, i + 5 + 4 * n)[0]);
    assert(enc[0] == seq![TAG_B][0]);
    assert(d.subrange(i + 1, i + 5) =~= u32_le_seq(b.num_elements)) by {
        assert forall|m: int| 0 <= m < 4 implies d.subrange(i + 1, i + 5)[m] == u32_le_seq(
            b.num_elements,
        )[m] by {
            assert(d.subrange(i + 1, i + 5)[m] == d[i + 1 + m]);
            assert(d[i + (1 + m)] == enc[1 + m]);
            assert(enc[1 + m] == (u32_le_seq(b.num_elements) + elems_le(s, n))[0 + m]);
        }
    }
    lemma_u32_le_round_trip(d, i + 1, b.num_elements);
    assert forall|k: int| 0 <= k < n implies #[trigger] le32_at(d, i + 5 + 4 * k)
        == s[k] as nat by {
        lemma_elems_le_at(s, n, k);
        assert(d.subrange(i + 5 + 4 * k, i + 5 + 4 * k + 4) =~= u32_le_seq(s[k])) by {
            assert forall|m: int| 0 <= m < 4 implies d.subrange(
                i + 5 + 4 * k,
                i + 5 + 4 * k + 4,
            )[m] == u32_le_seq(s[k])[m] by {
                assert(d.subrange(i + 5 + 4 * k, i + 5 + 4 * k + 4)[m] == d[i + 5 + 4 * k + m]);
                assert(d[i + (5 + 4 * k + m)] == enc[5 + 4 * k + m]);
                assert(enc[1 + (4 + 4 * k + m)] == (u32_le_seq(b.num_elements) + elems_le(s, n))[4
                    + 4 * k + m]);
                assert((u32_le_seq(b.num_elements) + elems_le(s, n))[4 + (4 * k + m)] == elems_le(
                    s,
                    n,
                )[4 * k + m]);
                assert(elems_le(s, n)[4 * k + m] == elems_le(s, n).subrange(4 * k, 4 * k + 4)[m]);
            }
        }
        lemma_u32_le_round_trip(d, i + 5 + 4 * k, s[k]);
    }
}

/// The packet round-trip law: wherever the wire bytes of a packet stand in
/// a buffer, they decode, they occupy exactly the bytes that were written,
/// and anything they decode to carries the packet's own fields.
pub proof fn lemma_packet_round_trip(p: Packet, d: Seq<u8>, i: int, sz: int)
    requires
        packet_exact(p),
        0 <= i,
        i + p.encoding().len() <= sz,
        sz <= d.len(),
        d.subrange(i, i + p.encoding().len() as int) == p.encoding(),
    ensures
        Packet::can_decode(d, i, sz),
        Packet::decoded_len(d, i) == p.encoding().len(),
        Packet::decodes_to(d, i, p),
        forall|q: Packet| Packet::decodes_to(d, i, q) ==> packet_equivalent(p, q),
{
    match p {
        Packet::A(a) => {
            lemma_wire_fields_a(a, d, i);
            assert forall|q: Packet| Packet::decodes_to(d, i, q) implies packet_equivalent(
                p,
                q,
            ) by {
                if let Packet::A(e) = q {
                    assert(e.x == a.x && e.y == a.y && e.z == a.z);
                }
            }
        },
        Packet::B(b) => {
            let s = b.elements@;
            let n = b.num_elements as int;
            lemma_elems_le_len(s, n);
            lemma_wire_fields_b(b, d, i);
            assert(Packet::decodes_to(d, i, p)) by {
                assert(s.take(0int) =~= Seq::<u32>::empty());
                assert forall|k: int| 0 <= k < n implies (#[trigger] s[k]) as nat == le32_at(
                    d,
                    i + 1 + 4 + 4 * (k - 0),
                ) by {
                    assert(le32_at(d, i + 5 + 4 * k) == s[k] as nat);
                    assert(i + 1 + 4 + 4 * (k - 0) == i + 5 + 4 * k);
                }
            }
            assert forall|q: Packet| Packet::decodes_to(d, i, q) implies packet_equivalent(
                p,
                q,
            ) by {
                if let Packet::B(c) = q {
                    assert(c.num_elements == b.num_elements);
                    assert(c.elements@.len() == s.len());
                    assert forall|k: int| 0 <= k < n implies c.elements@[k] == s[k] by {
                        assert(c.elements@[0 + k] as nat == le32_at(d, i + 1 + 4 + 4 * k));
                        assert(le32_at(d, i + 5 + 4 * k) == s[k] as nat);
                    }
                    assert(c.elements@ =~= s);
                }
            }
        },
        Packet::C(c) => {
            lemma_wire_fields_c(c, d, i);
            assert forall|q: Packet| Packet::decodes_to(d, i, q) implies packet_equivalent(
                p,
                q,
            ) by {
                if let Packet::C(e) = q {
                    assert(e.x == c.x && e.y == c.y && e.z == c.z);
                }
            }
        },
    }
}

} // verus!
