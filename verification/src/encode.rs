//! The packet encoder: frames payload bytes with a varint length prefix,
//! compresses them above a configurable threshold, and enciphers the whole
//! buffer at extraction time once encryption has been enabled.

use vstd::prelude::*;

use crate::cipher::{cfb8_stream, EncryptState};
use crate::compress::{deflate_of, zlib_compress};
use crate::packet::{EncodeError, Packet};
use crate::var_int::{i32_bits, varint_encode, VarInt};
use crate::MAX_PACKET_SIZE;

verus! {

/// A payload framed without compression: its length, then its bytes.
pub open spec fn frame_plain(payload: Seq<u8>) -> Seq<u8> {
    varint_encode(payload.len()) + payload
}

/// A payload at or under the compression threshold: the total length, a
/// zero marker meaning "not compressed", then the bytes as they are.
pub open spec fn frame_stored(payload: Seq<u8>) -> Seq<u8> {
    varint_encode(payload.len() + 1) + seq![0u8] + payload
}

/// A payload above the compression threshold: the total length, the
/// uncompressed length, then the compressed bytes.
pub open spec fn frame_deflated(payload: Seq<u8>) -> Seq<u8> {
    varint_encode(varint_encode(payload.len()).len() + deflate_of(payload).len()) + varint_encode(
        payload.len(),
    ) + deflate_of(payload)
}

/// The frame a payload takes under the given compression setting.
pub open spec fn frame_for(threshold: Option<u32>, payload: Seq<u8>) -> Seq<u8> {
    match threshold {
        None => frame_plain(payload),
        Some(t) => if payload.len() > t {
            frame_deflated(payload)
        } else {
            frame_stored(payload)
        },
    }
}

/// Whether the frame's declared length stays within `MAX_PACKET_SIZE` (and,
/// on the compressed path, whether the uncompressed length fits the 32-bit
/// prefix that carries it).
pub open spec fn frame_fits(threshold: Option<u32>, payload: Seq<u8>) -> bool {
    match threshold {
        None => payload.len() <= MAX_PACKET_SIZE,
        Some(t) => if payload.len() > t {
            payload.len() <= 0x7fff_ffff && varint_encode(payload.len()).len() + deflate_of(
                payload,
            ).len() <= MAX_PACKET_SIZE
        } else {
            payload.len() + 1 <= MAX_PACKET_SIZE
        },
    }
}

/// Frames `pkt` without compression and appends the frame to `buf`; on
/// failure `buf` is exactly as it was.
pub fn encode_packet<P: Packet>(buf: &mut Vec<u8>, pkt: &P) -> (r: Result<(), EncodeError>)
    requires
        pkt.valid(),
    ensures
        r is Ok <==> pkt.wire().len() <= MAX_PACKET_SIZE,
        r is Ok ==> final(buf)@ == old(buf)@ + frame_plain(pkt.wire()),
        r is Err ==> final(buf)@ == old(buf)@ && r == Err::<(), EncodeError>(
            EncodeError::PacketTooLarge,
        ),
{
    let mut payload: Vec<u8> = Vec::new();
    pkt.encode_packet(&mut payload);
    if payload.len() > MAX_PACKET_SIZE as usize {
        return Err(EncodeError::PacketTooLarge);
    }
    let len_prefix = VarInt(payload.len() as i32);
    assert(i32_bits(len_prefix.0) == pkt.wire().len());
    len_prefix.encode(buf);
    buf.append(&mut payload);
    proof {
        assert(buf@ =~= old(buf)@ + frame_plain(pkt.wire()));
    }
    Ok(())
}

/// Frames `pkt` under the compression threshold `threshold`, deflating the
/// payload when it is longer than the threshold, and appends the frame to
/// `buf`; on failure `buf` is exactly as it was.
pub fn encode_packet_compressed<P: Packet>(buf: &mut Vec<u8>, pkt: &P, threshold: u32) -> (r:
    Result<(), EncodeError>)
    requires
        pkt.valid(),
    ensures
        r is Ok <==> frame_fits(Some(threshold), pkt.wire()),
        r is Ok ==> final(buf)@ == old(buf)@ + frame_for(Some(threshold), pkt.wire()),
        r is Err ==> final(buf)@ == old(buf)@ && r == Err::<(), EncodeError>(
            EncodeError::PacketTooLarge,
        ),
{
    let mut payload: Vec<u8> = Vec::new();
    pkt.encode_packet(&mut payload);
    let data_len = payload.len();
    if data_len > threshold as usize {
        if data_len > 0x7fff_ffff {
            return Err(EncodeError::PacketTooLarge);
        }
        let inner_prefix = VarInt(data_len as i32);
        assert(i32_bits(inner_prefix.0) == pkt.wire().len());
        let data_len_size = inner_prefix.written_size();
        let mut compressed = zlib_compress(payload.as_slice());
        if compressed.len() > MAX_PACKET_SIZE as usize - data_len_size {
            return Err(EncodeError::PacketTooLarge);
        }
        let packet_len = data_len_size + compressed.len();
        let outer_prefix = VarInt(packet_len as i32);
        assert(i32_bits(outer_prefix.0) == varint_encode(pkt.wire().len()).len() + deflate_of(
            pkt.wire(),
        ).len());
        outer_prefix.encode(buf);
        inner_prefix.encode(buf);
        buf.append(&mut compressed);
        proof {
            assert(buf@ =~= old(buf)@ + frame_deflated(pkt.wire()));
        }
        Ok(())
    } else {
        if data_len > MAX_PACKET_SIZE as usize - 1 {
            return Err(EncodeError::PacketTooLarge);
        }
        let packet_len = data_len + 1;
        let outer_prefix = VarInt(packet_len as i32);
        assert(i32_bits(outer_prefix.0) == pkt.wire().len() + 1);
        outer_prefix.encode(buf);
        buf.push(0);
        buf.append(&mut payload);
        proof {
            assert(buf@ =~= old(buf)@ + frame_stored(pkt.wire()));
        }
        Ok(())
    }
}

/// Owns one connection's outgoing byte buffer together with its optional
/// compression threshold and optional whole-stream cipher.
pub struct PacketEncoder {
    buf: Vec<u8>,
    threshold: Option<u32>,
    cipher: Option<EncryptState>,
}

impl PacketEncoder {
    /// The bytes framed so far and not yet taken.
    pub closed spec fn buffered(&self) -> Seq<u8> {
        self.buf@
    }

    /// The compression threshold currently configured.
    pub closed spec fn threshold_spec(&self) -> Option<u32> {
        self.threshold
    }

    /// Whether `enable_encryption` has been called.
    pub closed spec fn encryption_enabled(&self) -> bool {
        self.cipher is Some
    }

    /// The cipher key, meaningful once encryption is enabled.
    pub closed spec fn key(&self) -> Seq<u8> {
        self.cipher->Some_0.key()
    }

    /// Every plaintext byte already fed through the cipher by earlier
    /// `take` calls, in order.
    pub closed spec fn processed(&self) -> Seq<u8> {
        self.cipher->Some_0.history()
    }

    /// A fresh encoder: empty buffer, no compression, no encryption.
    pub fn new() -> (enc: PacketEncoder)
        ensures
            enc.buffered() == Seq::<u8>::empty(),
            enc.threshold_spec() is None,
            !enc.encryption_enabled(),
    {
        PacketEncoder { buf: Vec::new(), threshold: None, cipher: None }
    }

    /// Appends raw, already-framed bytes without any framing of its own.
    pub fn append_bytes(&mut self, bytes: &[u8])
        ensures
            final(self).buffered() == old(self).buffered() + bytes@,
            final(self).threshold_spec() == old(self).threshold_spec(),
            final(self).encryption_enabled() == old(self).encryption_enabled(),
            old(self).encryption_enabled() ==> final(self).key() == old(self).key(),
            old(self).encryption_enabled() ==> final(self).processed() == old(self).processed(),
    {
        let mut incoming = vstd::slice::slice_to_vec(bytes);
        self.buf.append(&mut incoming);
    }

    /// Frames `pkt` under the current compression setting and appends the
    /// frame after everything already buffered. A frame over
    /// `MAX_PACKET_SIZE` is refused and the buffer left untouched.
    pub fn append_packet<P: Packet>(&mut self, pkt: &P) -> (r: Result<(), EncodeError>)
        requires
            pkt.valid(),
        ensures
            r is Ok <==> frame_fits(old(self).threshold_spec(), pkt.wire()),
            r is Ok ==> final(self).buffered() == old(self).buffered() + frame_for(
                old(self).threshold_spec(),
                pkt.wire(),
            ),
            r is Err ==> final(self).buffered() == old(self).buffered() && r == Err::<
                (),
                EncodeError,
            >(EncodeError::PacketTooLarge),
            final(self).threshold_spec() == old(self).threshold_spec(),
            final(self).encryption_enabled() == old(self).encryption_enabled(),
            old(self).encryption_enabled() ==> final(self).key() == old(self).key(),
            old(self).encryption_enabled() ==> final(self).processed() == old(self).processed(),
    {
        match self.threshold {
            Some(t) => encode_packet_compressed(&mut self.buf, pkt, t),
            None => encode_packet(&mut self.buf, pkt),
        }
    }

    /// Frames `pkt` like `append_packet` but splices the frame in before
    /// everything already buffered, leaving the buffered frames intact
    /// behind it.
    pub fn prepend_packet<P: Packet>(&mut self, pkt: &P) -> (r: Result<(), EncodeError>)
        requires
            pkt.valid(),
        ensures
            r is Ok <==> frame_fits(old(self).threshold_spec(), pkt.wire()),
            r is Ok ==> final(self).buffered() == frame_for(
                old(self).threshold_spec(),
                pkt.wire(),
            ) + old(self).buffered(),
            r is Err ==> final(self).buffered() == old(self).buffered() && r == Err::<
                (),
                EncodeError,
            >(EncodeError::PacketTooLarge),
            final(self).threshold_spec() == old(self).threshold_spec(),
            final(self).encryption_enabled() == old(self).encryption_enabled(),
            old(self).encryption_enabled() ==> final(self).key() == old(self).key(),
            old(self).encryption_enabled() ==> final(self).processed() == old(self).processed(),
    {
        let mut front: Vec<u8> = Vec::new();
        let r = match self.threshold {
            Some(t) => encode_packet_compressed(&mut front, pkt, t),
            None => encode_packet(&mut front, pkt),
        };
        match r {
            Ok(()) => {
                front.append(&mut self.buf);
                self.buf = front;
                Ok(())
            },
            Err(e) => Err(e),
        }
    }

    /// Removes and returns everything buffered. With encryption enabled the
    /// bytes leave enciphered, the keystream continuing exactly where the
    /// previous `take` stopped; configuration and cipher state survive.
    pub fn take(&mut self) -> (out: Vec<u8>)
        ensures
            final(self).buffered() == Seq::<u8>::empty(),
            final(self).threshold_spec() == old(self).threshold_spec(),
            final(self).encryption_enabled() == old(self).encryption_enabled(),
            !old(self).encryption_enabled() ==> out@ == old(self).buffered(),
            old(self).encryption_enabled() ==> {
                &&& final(self).key() == old(self).key()
                &&& final(self).processed() == old(self).processed() + old(self).buffered()
                &&& out@.len() == old(self).buffered().len()
                &&& cfb8_stream(old(self).key(), final(self).processed()) == cfb8_stream(
                    old(self).key(),
                    old(self).processed(),
                ) + out@
            },
    {
        match &mut self.cipher {
            Some(cipher) => {
                cipher.encrypt_in_place(&mut self.buf);
            },
            None => {},
        }
        let mut out: Vec<u8> = Vec::new();
        core::mem::swap(&mut out, &mut self.buf);
        out
    }

    /// Discards everything buffered; configuration and cipher state remain.
    pub fn clear(&mut self)
        ensures
            final(self).buffered() == Seq::<u8>::empty(),
            final(self).threshold_spec() == old(self).threshold_spec(),
            final(self).encryption_enabled() == old(self).encryption_enabled(),
            old(self).encryption_enabled() ==> final(self).key() == old(self).key(),
            old(self).encryption_enabled() ==> final(self).processed() == old(self).processed(),
    {
        self.buf.clear();
    }

    /// Configures per-packet compression, or disables it with `None`.
    pub fn set_compression(&mut self, threshold: Option<u32>)
        ensures
            final(self).threshold_spec() == threshold,
            final(self).buffered() == old(self).buffered(),
            final(self).encryption_enabled() == old(self).encryption_enabled(),
            old(self).encryption_enabled() ==> final(self).key() == old(self).key(),
            old(self).encryption_enabled() ==> final(self).processed() == old(self).processed(),
    {
        self.threshold = threshold;
    }

    /// Installs the whole-stream cipher. A one-way transition: calling this
    /// on an encoder that already has a cipher is a caller error, which the
    /// precondition rules out. Bytes already buffered are *not* enciphered
    /// here — every byte is enciphered exactly once, at `take` time.
    pub fn enable_encryption(&mut self, key: &[u8; 16])
        requires
            !old(self).encryption_enabled(),
        ensures
            final(self).encryption_enabled(),
            final(self).key() == key@,
            final(self).processed() == Seq::<u8>::empty(),
            final(self).buffered() == old(self).buffered(),
            final(self).threshold_spec() == old(self).threshold_spec(),
    {
        self.cipher = Some(EncryptState::new(key));
    }

    /// Whether encryption has been enabled, so callers can honour the
    /// one-way transition without tracking it themselves.
    pub fn is_encryption_enabled(&self) -> (r: bool)
        ensures
            r == self.encryption_enabled(),
    {
        match &self.cipher {
            Some(_) => true,
            None => false,
        }
    }
}

impl Default for PacketEncoder {
    /// The same encoder `new` builds.
    fn default() -> (enc: Self)
        ensures
            enc.buffered() == Seq::<u8>::empty(),
            enc.threshold_spec() is None,
            !enc.encryption_enabled(),
    {
        PacketEncoder::new()
    }
}

/// Law: ciphertext from successive extractions concatenates to the single
/// continuous encryption of all plaintext extracted, with no keystream
/// reset in between. The hypotheses are exactly what two `take` calls
/// ensure about their outputs `c1` and `c2`.
pub proof fn lemma_cipher_stream_continuity(
    key: Seq<u8>,
    p1: Seq<u8>,
    p2: Seq<u8>,
    c1: Seq<u8>,
    c2: Seq<u8>,
)
    requires
        cfb8_stream(key, p1) == cfb8_stream(key, Seq::<u8>::empty()) + c1,
        cfb8_stream(key, p1 + p2) == cfb8_stream(key, p1) + c2,
    ensures
        c1 + c2 == cfb8_stream(key, p1 + p2),
{
    assert(cfb8_stream(key, Seq::<u8>::empty()) == Seq::<u8>::empty());
    assert(cfb8_stream(key, p1) =~= c1);
    assert(c1 + c2 =~= cfb8_stream(key, p1 + p2));
}

/// Types that accept outgoing packets: the buffering encoder, or a plain
/// byte vector for one-shot replies. A packet whose frame the sink refuses
/// is dropped silently, so one oversized packet cannot abort a send loop.
pub trait WritePacket {
    /// The bytes accumulated in the sink.
    spec fn sink_bytes(&self) -> Seq<u8>;

    /// The sink's compression threshold.
    spec fn sink_threshold(&self) -> Option<u32>;

    /// Frames and appends one packet; a packet whose frame would exceed
    /// `MAX_PACKET_SIZE` is dropped, leaving the sink unchanged.
    fn write_packet<P: Packet>(&mut self, packet: &P)
        requires
            packet.valid(),
        ensures
            final(self).sink_threshold() == old(self).sink_threshold(),
            frame_fits(old(self).sink_threshold(), packet.wire()) ==> final(self).sink_bytes()
                == old(self).sink_bytes() + frame_for(old(self).sink_threshold(), packet.wire()),
            !frame_fits(old(self).sink_threshold(), packet.wire()) ==> final(self).sink_bytes()
                == old(self).sink_bytes(),
    ;

    /// Copies raw, already-framed bytes straight into the sink.
    fn write_packet_bytes(&mut self, bytes: &[u8])
        ensures
            final(self).sink_threshold() == old(self).sink_threshold(),
            final(self).sink_bytes() == old(self).sink_bytes() + bytes@,
    ;
}

impl WritePacket for PacketEncoder {
    open spec fn sink_bytes(&self) -> Seq<u8> {
        self.buffered()
    }

    open spec fn sink_threshold(&self) -> Option<u32> {
        self.threshold_spec()
    }

    fn write_packet<P: Packet>(&mut self, packet: &P) {
        let _ = self.append_packet(packet);
    }

    fn write_packet_bytes(&mut self, bytes: &[u8]) {
        self.append_bytes(bytes);
    }
}

/// A `WritePacket` sink backed by a plain byte vector, for contexts without
/// a persistent connection.
pub struct PacketWriter {
    /// The accumulated frames.
    pub buf: Vec<u8>,
    /// Compression threshold applied to each packet written.
    pub threshold: Option<u32>,
}

impl PacketWriter {
    /// A writer that appends frames to `buf` under `threshold`.
    pub fn new(buf: Vec<u8>, threshold: Option<u32>) -> (w: PacketWriter)
        ensures
            w.buf == buf,
            w.threshold == threshold,
    {
        PacketWriter { buf, threshold }
    }

    /// Hands the accumulated bytes back.
    pub fn into_inner(self) -> (buf: Vec<u8>)
        ensures
            buf == self.buf,
    {
        self.buf
    }
}

impl WritePacket for PacketWriter {
    open spec fn sink_bytes(&self) -> Seq<u8> {
        self.buf@
    }

    open spec fn sink_threshold(&self) -> Option<u32> {
        self.threshold
    }

    fn write_packet<P: Packet>(&mut self, packet: &P) {
        let r = match self.threshold {
            Some(t) => encode_packet_compressed(&mut self.buf, packet, t),
            None => encode_packet(&mut self.buf, packet),
        };
        let _ = r;
    }

    fn write_packet_bytes(&mut self, bytes: &[u8]) {
        let mut incoming = vstd::slice::slice_to_vec(bytes);
        self.buf.append(&mut incoming);
    }
}

} // verus!
