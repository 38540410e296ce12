//! A bit-granular binary serialization engine.
//!
//! Values are packed using only as many bits as their declared numeric range
//! requires. A [`bit_writer::BitWriter`] accumulates bits of arbitrary width
//! (0 to 32) in a 64-bit scratch register and flushes completed 32-bit words
//! to a fixed-capacity word buffer; a [`bit_reader::BitReader`] mirrors it.
//! [`streams::WriteStream`] and [`streams::ReadStream`] wrap the pair with
//! range-based integer serialization, raw bit serialization, byte alignment,
//! and aligned bulk byte copies. An independent, byte-grained packet envelope
//! ([`packet`]) frames a closed set of variants behind a one-byte
//! discriminant over a plain byte cursor ([`byte_buffer`]).

pub mod bit_reader;
pub mod byte_buffer;
pub mod packet;
pub mod bit_writer;
pub mod bitmath;
pub mod bitstream;
pub mod streams;
