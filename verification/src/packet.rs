//! The packet capability: a message type that can serialize its payload
//! bytes into a buffer and reconstruct itself from them. Tag dispatch —
//! choosing the type for an incoming tag — belongs to higher layers; this
//! library guarantees only that a payload written by `encode_packet` reads
//! back through `decode_packet`.

use vstd::prelude::*;

verus! {

/// Why framing a packet for the wire failed.
#[derive(Clone, Copy, Debug, PartialEq, Eq, Structural)]
pub enum EncodeError {
    /// The framed length would exceed `MAX_PACKET_SIZE`.
    PacketTooLarge,
}

/// Why a received byte stream could not be decoded.
#[derive(Clone, Copy, Debug, PartialEq, Eq, Structural)]
pub enum DecodeError {
    /// A length prefix ran past its maximum byte count.
    MalformedVarint,
    /// A declared frame length is negative or exceeds `MAX_PACKET_SIZE`.
    PacketTooLarge,
    /// The compressed body is not a well-formed zlib stream.
    CorruptFrame,
    /// The inflated byte count disagrees with the declared inner length.
    DecompressedLengthMismatch,
    /// The frame's payload does not decode as the expected packet type.
    MalformedPayload,
}

/// A message that can pass over the wire. `wire` is the payload byte
/// sequence the type stands for; encoding appends exactly those bytes, and
/// decoding succeeds on exactly the byte sequences some value encodes to.
pub trait Packet: Sized {
    /// The encoded payload bytes of this packet.
    spec fn wire(&self) -> Seq<u8>;

    /// Whether every length inside the payload fits the 32-bit prefix that
    /// carries it on the wire. Every value a test can build is valid; only
    /// mathematical values beyond the format's reach are not.
    spec fn valid(&self) -> bool;

    /// Serializes the payload, appending it to `buf`.
    fn encode_packet(&self, buf: &mut Vec<u8>)
        requires
            self.valid(),
        ensures
            final(buf)@ == old(buf)@ + self.wire(),
    ;

    /// Reconstructs a packet from exactly the payload bytes: it succeeds on
    /// precisely the byte sequences that some valid packet encodes to, and
    /// returns a packet that encodes back to them.
    fn decode_packet(bytes: &[u8]) -> (r: Result<Self, DecodeError>)
        ensures
            r matches Ok(p) ==> p.wire() == bytes@ && p.valid(),
            forall|q: Self| q.valid() && q.wire() == bytes@ ==> r is Ok,
    ;
}

} // verus!
