//! The packet decoder: the encoder's inverse. It queues received bytes,
//! deciphering them on arrival once encryption is enabled, and yields one
//! frame's payload at a time — stripping the length prefix and, when
//! compression is configured, the inner length marker, inflating the body
//! where that marker is nonzero.

use vstd::prelude::*;

use crate::cipher::{cfb8_plain, DecryptState};
use crate::compress::{inflate_of, zlib_decompress};
use crate::packet::DecodeError;
use crate::encode::{frame_fits, frame_for, frame_plain, frame_stored};
use crate::var_int::{
    lemma_encode_len_bound, lemma_pow128_values, lemma_raw_decode_encode,
    lemma_raw_decode_structure, raw_decode, varint_encode, VarInt, VarIntError,
};
use crate::MAX_PACKET_SIZE;

verus! {

/// What one attempt to lift a frame from the head of the deciphered stream
/// yields: a payload and the count of stream bytes it consumed, nothing
/// when the stream does not yet hold a whole frame, or an error naming the
/// corruption. This is the decoder's framing rule in full.
pub open spec fn spec_try_next(threshold: Option<u32>, s: Seq<u8>) -> Result<
    Option<(Seq<u8>, int)>,
    DecodeError,
> {
    match raw_decode(s) {
        Some(p) => {
            if p.1 <= 5 {
                let declared = p.0 % 0x1_0000_0000;
                if declared > MAX_PACKET_SIZE {
                    Err(DecodeError::PacketTooLarge)
                } else if s.len() - p.1 < declared {
                    Ok(None)
                } else {
                    let body = s.subrange(p.1, p.1 + declared);
                    match threshold {
                        None => Ok(Some((body, p.1 + declared))),
                        Some(_) => match spec_unwrap_compressed(body) {
                            Ok(payload) => Ok(Some((payload, p.1 + declared))),
                            Err(e) => Err(e),
                        },
                    }
                }
            } else {
                Err(DecodeError::MalformedVarint)
            }
        },
        None => {
            if s.len() >= 5 {
                Err(DecodeError::MalformedVarint)
            } else {
                Ok(None)
            }
        },
    }
}

/// The compression layer of one complete frame body: a zero inner length
/// marks a payload stored as-is; a nonzero one is the uncompressed length
/// the inflated remainder must match.
pub open spec fn spec_unwrap_compressed(body: Seq<u8>) -> Result<Seq<u8>, DecodeError> {
    match raw_decode(body) {
        Some(p) => {
            if p.1 <= 5 {
                let declared = p.0 % 0x1_0000_0000;
                if declared == 0 {
                    Ok(body.skip(p.1))
                } else if declared > MAX_PACKET_SIZE {
                    Err(DecodeError::PacketTooLarge)
                } else {
                    match inflate_of(body.skip(p.1)) {
                        Some(v) => {
                            if v.len() == declared {
                                Ok(v)
                            } else {
                                Err(DecodeError::DecompressedLengthMismatch)
                            }
                        },
                        None => Err(DecodeError::CorruptFrame),
                    }
                }
            } else {
                Err(DecodeError::MalformedVarint)
            }
        },
        None => Err(DecodeError::MalformedVarint),
    }
}

/// Owns one connection's incoming byte queue together with its optional
/// compression threshold and optional whole-stream cipher.
pub struct PacketDecoder {
    buf: Vec<u8>,
    threshold: Option<u32>,
    cipher: Option<DecryptState>,
}

impl PacketDecoder {
    /// The deciphered bytes received and not yet consumed.
    pub closed spec fn queued(&self) -> Seq<u8> {
        self.buf@
    }

    /// The compression threshold currently configured.
    pub closed spec fn threshold_spec(&self) -> Option<u32> {
        self.threshold
    }

    /// Whether `enable_encryption` has been called.
    pub closed spec fn decryption_enabled(&self) -> bool {
        self.cipher is Some
    }

    /// The cipher key, meaningful once decryption is enabled.
    pub closed spec fn key(&self) -> Seq<u8> {
        self.cipher->Some_0.key()
    }

    /// Every ciphertext byte already fed through the cipher, in order.
    pub closed spec fn processed(&self) -> Seq<u8> {
        self.cipher->Some_0.history()
    }

    /// A fresh decoder: empty queue, no compression, no decryption.
    pub fn new() -> (dec: PacketDecoder)
        ensures
            dec.queued() == Seq::<u8>::empty(),
            dec.threshold_spec() is None,
            !dec.decryption_enabled(),
    {
        PacketDecoder { buf: Vec::new(), threshold: None, cipher: None }
    }

    /// Queues received bytes, deciphering them first when encryption is
    /// active; the keystream continues exactly where the last call stopped.
    pub fn queue_bytes(&mut self, bytes: &[u8])
        ensures
            final(self).threshold_spec() == old(self).threshold_spec(),
            final(self).decryption_enabled() == old(self).decryption_enabled(),
            !old(self).decryption_enabled() ==> final(self).queued() == old(self).queued()
                + bytes@,
            old(self).decryption_enabled() ==> final(self).key() == old(self).key(),
            old(self).decryption_enabled() ==> final(self).processed() == old(self).processed()
                + bytes@,
            old(self).decryption_enabled() ==> final(self).queued() == old(self).queued()
                + cfb8_plain(old(self).key(), old(self).processed() + bytes@).skip(
                cfb8_plain(old(self).key(), old(self).processed()).len() as int,
            ),
    {
        let mut incoming = vstd::slice::slice_to_vec(bytes);
        match &mut self.cipher {
            Some(cipher) => {
                cipher.decrypt_in_place(&mut incoming);
                proof {
                    let key = old(self).key();
                    let h0 = old(self).processed();
                    assert(cfb8_plain(key, h0 + bytes@).skip(cfb8_plain(key, h0).len() as int)
                        =~= incoming@);
                }
            },
            None => {},
        }
        self.buf.append(&mut incoming);
    }

    /// Configures per-packet compression, or disables it with `None`.
    pub fn set_compression(&mut self, threshold: Option<u32>)
        ensures
            final(self).threshold_spec() == threshold,
            final(self).queued() == old(self).queued(),
            final(self).decryption_enabled() == old(self).decryption_enabled(),
            old(self).decryption_enabled() ==> final(self).key() == old(self).key(),
            old(self).decryption_enabled() ==> final(self).processed() == old(self).processed(),
    {
        self.threshold = threshold;
    }

    /// Installs the whole-stream cipher: a one-way transition, and a caller
    /// error to repeat, which the precondition rules out.
    pub fn enable_encryption(&mut self, key: &[u8; 16])
        requires
            !old(self).decryption_enabled(),
        ensures
            final(self).decryption_enabled(),
            final(self).key() == key@,
            final(self).processed() == Seq::<u8>::empty(),
            final(self).queued() == old(self).queued(),
            final(self).threshold_spec() == old(self).threshold_spec(),
    {
        self.cipher = Some(DecryptState::new(key));
    }

    /// Lifts the next frame's payload off the queue. Yields `None` when the
    /// queue does not yet hold a whole frame — more input is needed — and
    /// consumes nothing then or on error.
    pub fn try_next_packet(&mut self) -> (r: Result<Option<Vec<u8>>, DecodeError>)
        ensures
            final(self).threshold_spec() == old(self).threshold_spec(),
            final(self).decryption_enabled() == old(self).decryption_enabled(),
            old(self).decryption_enabled() ==> final(self).key() == old(self).key(),
            old(self).decryption_enabled() ==> final(self).processed() == old(self).processed(),
            match spec_try_next(old(self).threshold_spec(), old(self).queued()) {
                Ok(Some((payload, consumed))) => {
                    &&& r matches Ok(o) && o matches Some(v) && v@ == payload
                    &&& final(self).queued() == old(self).queued().skip(consumed)
                },
                Ok(None) => r == Ok::<Option<Vec<u8>>, DecodeError>(None) && final(self).queued()
                    == old(self).queued(),
                Err(e) => r == Err::<Option<Vec<u8>>, DecodeError>(e) && final(self).queued()
                    == old(self).queued(),
            },
    {
        proof {
            lemma_raw_decode_structure(self.buf@);
        }
        let (length, prefix_len) = match VarInt::decode(self.buf.as_slice()) {
            Ok((v, n)) => (v.0, n),
            Err(VarIntError::Truncated) => {
                return Ok(None);
            },
            Err(VarIntError::Malformed) => {
                return Err(DecodeError::MalformedVarint);
            },
        };
        if length < 0 || length > MAX_PACKET_SIZE {
            return Err(DecodeError::PacketTooLarge);
        }
        let frame_len = length as usize;
        if self.buf.len() - prefix_len < frame_len {
            return Ok(None);
        }
        let total = prefix_len + frame_len;
        let ghost stream = self.buf@;
        let ghost body_spec = stream.subrange(prefix_len as int, total as int);
        let result: Result<Option<Vec<u8>>, DecodeError> = match self.threshold {
            None => {
                let body = vstd::slice::slice_subrange(self.buf.as_slice(), prefix_len, total);
                Ok(Some(vstd::slice::slice_to_vec(body)))
            },
            Some(_) => {
                let body = vstd::slice::slice_subrange(self.buf.as_slice(), prefix_len, total);
                match Self::unwrap_compressed(body) {
                    Ok(payload) => Ok(Some(payload)),
                    Err(e) => {
                        return Err(e);
                    },
                }
            },
        };
        let rest = self.buf.split_off(total);
        let mut kept = rest;
        core::mem::swap(&mut self.buf, &mut kept);
        proof {
            assert(self.buf@ =~= stream.skip(total as int));
        }
        result
    }

    /// The compression layer of one complete frame body, executably.
    fn unwrap_compressed(body: &[u8]) -> (r: Result<Vec<u8>, DecodeError>)
        ensures
            match spec_unwrap_compressed(body@) {
                Ok(payload) => r matches Ok(v) && v@ == payload,
                Err(e) => r == Err::<Vec<u8>, DecodeError>(e),
            },
    {
        proof {
            lemma_raw_decode_structure(body@);
        }
        let (declared, marker_len) = match VarInt::decode(body) {
            Ok((v, n)) => (v.0, n),
            Err(_) => {
                return Err(DecodeError::MalformedVarint);
            },
        };
        let rest = vstd::slice::slice_subrange(body, marker_len, body.len());
        if declared == 0 {
            return Ok(vstd::slice::slice_to_vec(rest));
        }
        if declared < 0 || declared > MAX_PACKET_SIZE {
            return Err(DecodeError::PacketTooLarge);
        }
        match zlib_decompress(rest) {
            Some(inflated) => {
                if inflated.len() == declared as usize {
                    Ok(inflated)
                } else {
                    Err(DecodeError::DecompressedLengthMismatch)
                }
            },
            None => Err(DecodeError::CorruptFrame),
        }
    }
}

impl Default for PacketDecoder {
    /// The same decoder `new` builds.
    fn default() -> (dec: Self)
        ensures
            dec.queued() == Seq::<u8>::empty(),
            dec.threshold_spec() is None,
            !dec.decryption_enabled(),
    {
        PacketDecoder::new()
    }
}

/// Law: a frame without compression is the payload's length prefix and the
/// payload, so framing grows a buffer by exactly the prefix's written size
/// plus the payload's size — and the prefix decodes back to that size.
pub proof fn lemma_plain_frame_shape(payload: Seq<u8>, rest: Seq<u8>)
    ensures
        frame_plain(payload).len() == varint_encode(payload.len()).len() + payload.len(),
        raw_decode(frame_plain(payload) + rest) == Some(
            (payload.len(), varint_encode(payload.len()).len() as int),
        ),
{
    lemma_raw_decode_encode(payload.len(), payload + rest);
    assert(frame_plain(payload) + rest =~= varint_encode(payload.len()) + (payload + rest));
}

/// Law: a whole frame at the head of the received stream decodes to exactly
/// the payload it was built from, and consumes exactly the frame — under no
/// compression, or under a threshold the payload does not exceed.
pub proof fn lemma_frame_round_trip(threshold: Option<u32>, payload: Seq<u8>, rest: Seq<u8>)
    requires
        frame_fits(threshold, payload),
        threshold matches Some(t) ==> payload.len() <= t,
    ensures
        spec_try_next(threshold, frame_for(threshold, payload) + rest) == Ok::<
            Option<(Seq<u8>, int)>,
            DecodeError,
        >(Some((payload, frame_for(threshold, payload).len() as int))),
{
    lemma_pow128_values();
    match threshold {
        None => {
            let prefix = varint_encode(payload.len());
            let s = frame_plain(payload) + rest;
            assert(s =~= prefix + (payload + rest));
            lemma_raw_decode_encode(payload.len(), payload + rest);
            lemma_encode_len_bound(payload.len(), 5);
            assert(s.subrange(prefix.len() as int, prefix.len() + payload.len() as int)
                =~= payload);
        },
        Some(_) => {
            let prefix = varint_encode(payload.len() + 1);
            let body = seq![0u8] + payload;
            let s = frame_stored(payload) + rest;
            assert(s =~= prefix + (body + rest));
            lemma_raw_decode_encode(payload.len() + 1, body + rest);
            lemma_encode_len_bound(payload.len() + 1, 5);
            assert(s.subrange(prefix.len() as int, prefix.len() + body.len() as int) =~= body);
            assert(body[0] == 0);
            assert(raw_decode(body) == Some((0nat, 1int)));
            assert(body.skip(1) =~= payload);
        },
    }
}

/// Law: a frame spliced in before two frames already buffered stands first,
/// and the three decode back in that order, each consuming its own frame
/// and leaving the others untouched.
pub proof fn lemma_prepend_ordering(t: Option<u32>, p1: Seq<u8>, p2: Seq<u8>, p3: Seq<u8>)
    requires
        frame_fits(t, p1) && (t matches Some(v) ==> p1.len() <= v),
        frame_fits(t, p2) && (t matches Some(v) ==> p2.len() <= v),
        frame_fits(t, p3) && (t matches Some(v) ==> p3.len() <= v),
    ensures
        ({
            let stream = frame_for(t, p3) + (frame_for(t, p1) + frame_for(t, p2));
            &&& spec_try_next(t, stream) == Ok::<Option<(Seq<u8>, int)>, DecodeError>(
                Some((p3, frame_for(t, p3).len() as int)),
            )
            &&& spec_try_next(t, stream.skip(frame_for(t, p3).len() as int)) == Ok::<
                Option<(Seq<u8>, int)>,
                DecodeError,
            >(Some((p1, frame_for(t, p1).len() as int)))
            &&& spec_try_next(
                t,
                stream.skip(frame_for(t, p3).len() as int).skip(frame_for(t, p1).len() as int),
            ) == Ok::<Option<(Seq<u8>, int)>, DecodeError>(
                Some((p2, frame_for(t, p2).len() as int)),
            )
        }),
{
    let f1 = frame_for(t, p1);
    let f2 = frame_for(t, p2);
    let f3 = frame_for(t, p3);
    let stream = f3 + (f1 + f2);
    lemma_frame_round_trip(t, p3, f1 + f2);
    assert(stream.skip(f3.len() as int) =~= f1 + f2);
    lemma_frame_round_trip(t, p1, f2);
    assert((f1 + f2).skip(f1.len() as int) =~= f2 + Seq::<u8>::empty());
    lemma_frame_round_trip(t, p2, Seq::empty());
}

} // verus!
