//! The encoder/decoder pipeline: framing, compression, splicing, size
//! limits, and whole-stream encryption.

use aes::cipher::{AsyncStreamCipher, KeyIvInit};
use valence_packet::decode::PacketDecoder;
use valence_packet::encode::{encode_packet, encode_packet_compressed, PacketEncoder, PacketWriter, WritePacket};
use valence_packet::packet::{DecodeError, EncodeError, Packet};
use valence_packet::packets::DisconnectS2c;
use valence_packet::var_int::VarInt;

fn payload_of<P: Packet>(pkt: &P) -> Vec<u8> {
    let mut buf = Vec::new();
    pkt.encode_packet(&mut buf);
    buf
}

/// A disconnect packet whose payload is exactly `n` bytes (ASCII reason).
fn packet_with_payload_len(n: usize) -> DisconnectS2c {
    // payload = varint(text_len) ++ text
    let mut text_len = n - 1;
    loop {
        let prefix = VarInt(text_len as i32).written_size();
        if prefix + text_len == n {
            break;
        }
        text_len -= 1;
    }
    let pkt = DisconnectS2c { reason: "a".repeat(text_len) };
    assert_eq!(payload_of(&pkt).len(), n);
    pkt
}

#[test]
fn plain_framing_grows_by_prefix_plus_payload() {
    let pkt = packet_with_payload_len(100);
    let payload = payload_of(&pkt);
    let mut enc = PacketEncoder::new();
    enc.append_packet(&pkt).unwrap();
    let frame = enc.take();
    let prefix_size = VarInt(payload.len() as i32).written_size();
    assert_eq!(frame.len(), prefix_size + payload.len());
    let (decoded_len, used) = VarInt::decode(&frame).unwrap();
    assert_eq!(decoded_len, VarInt(payload.len() as i32));
    assert_eq!(used, prefix_size);
    assert_eq!(&frame[used..], payload.as_slice());
}

#[test]
fn stored_framing_under_threshold() {
    let pkt = packet_with_payload_len(10);
    let payload = payload_of(&pkt);
    let mut enc = PacketEncoder::new();
    enc.set_compression(Some(256));
    enc.append_packet(&pkt).unwrap();
    let frame = enc.take();
    // varint(11) ++ [0x00] ++ payload
    let mut expected = vec![11u8, 0u8];
    expected.extend_from_slice(&payload);
    assert_eq!(frame, expected);
}

#[test]
fn compressed_framing_over_threshold() {
    let pkt = packet_with_payload_len(300);
    let payload = payload_of(&pkt);
    let mut enc = PacketEncoder::new();
    enc.set_compression(Some(256));
    enc.append_packet(&pkt).unwrap();
    let frame = enc.take();

    // outer varint: total length of what follows it
    let (outer, outer_used) = VarInt::decode(&frame).unwrap();
    assert_eq!(outer.0 as usize, frame.len() - outer_used);
    // inner varint: the uncompressed length, 300
    let (inner, inner_used) = VarInt::decode(&frame[outer_used..]).unwrap();
    assert_eq!(inner, VarInt(300));
    // outer length = written size of inner varint + compressed byte count
    let compressed = &frame[outer_used + inner_used..];
    assert_eq!(outer.0 as usize, inner_used + compressed.len());
    assert!(compressed.len() < payload.len());

    // inflating the trailing bytes reproduces the original payload exactly
    let mut z = flate2::bufread::ZlibDecoder::new(compressed);
    let mut inflated = Vec::new();
    std::io::Read::read_to_end(&mut z, &mut inflated).unwrap();
    assert_eq!(inflated, payload);

    // and the decoder agrees end to end
    let mut dec = PacketDecoder::new();
    dec.set_compression(Some(256));
    dec.queue_bytes(&frame);
    let got = dec.try_next_packet().unwrap().unwrap();
    assert_eq!(got, payload);
}

#[test]
fn prepend_packet_goes_first() {
    let p1 = DisconnectS2c { reason: "first appended".to_string() };
    let p2 = DisconnectS2c { reason: "second appended".to_string() };
    let p3 = DisconnectS2c { reason: "urgent".to_string() };
    let mut enc = PacketEncoder::new();
    enc.append_packet(&p1).unwrap();
    enc.append_packet(&p2).unwrap();
    enc.prepend_packet(&p3).unwrap();
    let stream = enc.take();

    let mut dec = PacketDecoder::new();
    dec.queue_bytes(&stream);
    for expected in [&p3, &p1, &p2] {
        let got = dec.try_next_packet().unwrap().unwrap();
        assert_eq!(got, payload_of(expected));
        assert_eq!(DisconnectS2c::decode_packet(&got), Ok(expected.clone()));
    }
    assert_eq!(dec.try_next_packet(), Ok(None));
}

#[test]
fn oversized_packet_is_rejected_and_buffer_untouched() {
    let small = DisconnectS2c { reason: "ok".to_string() };
    let huge = DisconnectS2c { reason: "a".repeat(2_200_000) };
    let mut enc = PacketEncoder::new();
    enc.append_packet(&small).unwrap();
    let before = enc.take();
    enc.append_bytes(&before);
    assert_eq!(enc.append_packet(&huge), Err(EncodeError::PacketTooLarge));
    let after = enc.take();
    assert_eq!(after, before);
}

#[test]
fn oversized_packet_rejected_with_compression_configured() {
    // incompressible data over the limit even after deflation
    let mut noise = Vec::new();
    let mut x: u32 = 0x12345678;
    for _ in 0..4_400_000 {
        x = x.wrapping_mul(1664525).wrapping_add(1013904223);
        noise.push((x >> 24) as u8);
    }
    let reason: String = noise.iter().map(|b| char::from(b'A' + (b % 26))).collect();
    let huge = DisconnectS2c { reason };
    let mut enc = PacketEncoder::new();
    enc.set_compression(Some(256));
    // random letters compress a little, but nowhere near below the limit
    assert_eq!(enc.append_packet(&huge), Err(EncodeError::PacketTooLarge));
    assert_eq!(enc.take(), Vec::<u8>::new());
}

#[test]
fn encryption_keystream_continues_across_takes() {
    let key = [7u8; 16];
    let first = b"hello there, ";
    let second = b"general packet stream";

    let mut enc = PacketEncoder::new();
    enc.append_bytes(first);
    enc.enable_encryption(&key);
    let c1 = enc.take();
    enc.append_bytes(second);
    let c2 = enc.take();

    let mut all_plain = Vec::new();
    all_plain.extend_from_slice(first);
    all_plain.extend_from_slice(second);
    let mut expected = all_plain.clone();
    cfb8::Encryptor::<aes::Aes128>::new((&key).into(), (&key).into()).encrypt(&mut expected);

    let mut got = c1.clone();
    got.extend_from_slice(&c2);
    assert_eq!(got, expected);
    assert_ne!(got, all_plain);
}

#[test]
fn decoder_decrypts_the_encoders_stream() {
    let key = [0x42u8; 16];
    let pkt = DisconnectS2c { reason: "over the encrypted wire".to_string() };
    let mut enc = PacketEncoder::new();
    enc.set_compression(Some(8));
    enc.enable_encryption(&key);
    enc.append_packet(&pkt).unwrap();
    let wire = enc.take();

    let mut dec = PacketDecoder::new();
    dec.set_compression(Some(8));
    dec.enable_encryption(&key);
    // split delivery: keystream must survive the boundary
    dec.queue_bytes(&wire[..5]);
    dec.queue_bytes(&wire[5..]);
    let payload = dec.try_next_packet().unwrap().unwrap();
    assert_eq!(DisconnectS2c::decode_packet(&payload), Ok(pkt));
}

#[test]
fn decoder_reports_need_more_data() {
    let pkt = DisconnectS2c { reason: "partial arrival".to_string() };
    let mut enc = PacketEncoder::new();
    enc.append_packet(&pkt).unwrap();
    let frame = enc.take();

    let mut dec = PacketDecoder::new();
    dec.queue_bytes(&frame[..frame.len() - 1]);
    assert_eq!(dec.try_next_packet(), Ok(None));
    dec.queue_bytes(&frame[frame.len() - 1..]);
    let payload = dec.try_next_packet().unwrap().unwrap();
    assert_eq!(payload, payload_of(&pkt));
    assert_eq!(dec.try_next_packet(), Ok(None));
}

#[test]
fn decoder_rejects_malformed_length_prefix() {
    let mut dec = PacketDecoder::new();
    dec.queue_bytes(&[0xFF, 0xFF, 0xFF, 0xFF, 0xFF]);
    assert_eq!(dec.try_next_packet(), Err(DecodeError::MalformedVarint));
}

#[test]
fn decoder_rejects_overlong_declared_frame() {
    let mut dec = PacketDecoder::new();
    let mut stream = Vec::new();
    VarInt(3_000_000).encode(&mut stream);
    dec.queue_bytes(&stream);
    assert_eq!(dec.try_next_packet(), Err(DecodeError::PacketTooLarge));
}

#[test]
fn decoder_rejects_decompressed_length_mismatch() {
    let data = [9u8; 300];
    let mut z = flate2::bufread::ZlibEncoder::new(&data[..], flate2::Compression::new(4));
    let mut compressed = Vec::new();
    std::io::Read::read_to_end(&mut z, &mut compressed).unwrap();

    let mut body = Vec::new();
    VarInt(299).encode(&mut body); // wrong: 300 bytes inflate out
    body.extend_from_slice(&compressed);
    let mut stream = Vec::new();
    VarInt(body.len() as i32).encode(&mut stream);
    stream.extend_from_slice(&body);

    let mut dec = PacketDecoder::new();
    dec.set_compression(Some(64));
    dec.queue_bytes(&stream);
    assert_eq!(
        dec.try_next_packet(),
        Err(DecodeError::DecompressedLengthMismatch)
    );
}

#[test]
fn decoder_rejects_corrupt_compressed_body() {
    let mut body = Vec::new();
    VarInt(10).encode(&mut body);
    body.extend_from_slice(&[0xDE, 0xAD, 0xBE, 0xEF]);
    let mut stream = Vec::new();
    VarInt(body.len() as i32).encode(&mut stream);
    stream.extend_from_slice(&body);

    let mut dec = PacketDecoder::new();
    dec.set_compression(Some(64));
    dec.queue_bytes(&stream);
    assert_eq!(dec.try_next_packet(), Err(DecodeError::CorruptFrame));
}

#[test]
fn free_framing_functions_match_the_encoder() {
    let pkt = packet_with_payload_len(40);
    let mut plain = Vec::new();
    encode_packet(&mut plain, &pkt).unwrap();
    let mut enc = PacketEncoder::new();
    enc.append_packet(&pkt).unwrap();
    assert_eq!(plain, enc.take());

    let mut stored = Vec::new();
    encode_packet_compressed(&mut stored, &pkt, 256).unwrap();
    enc.set_compression(Some(256));
    enc.append_packet(&pkt).unwrap();
    assert_eq!(stored, enc.take());
}

#[test]
fn packet_writer_accumulates_frames_and_raw_bytes() {
    let pkt = DisconnectS2c { reason: "one-shot".to_string() };
    let mut expected = Vec::new();
    encode_packet(&mut expected, &pkt).unwrap();
    expected.extend_from_slice(&[1, 2, 3]);

    let mut w = PacketWriter::new(Vec::new(), None);
    w.write_packet(&pkt);
    w.write_packet_bytes(&[1, 2, 3]);
    assert_eq!(w.into_inner(), expected);
}

#[test]
fn write_packet_drops_oversized_packets_silently() {
    let huge = DisconnectS2c { reason: "a".repeat(2_200_000) };
    let mut w = PacketWriter::new(Vec::new(), None);
    w.write_packet(&huge);
    assert_eq!(w.into_inner(), Vec::<u8>::new());

    let mut enc = PacketEncoder::new();
    enc.write_packet(&huge);
    assert_eq!(enc.take(), Vec::<u8>::new());
}

#[test]
fn clear_discards_buffered_bytes_but_keeps_configuration() {
    let pkt = DisconnectS2c { reason: "gone".to_string() };
    let mut enc = PacketEncoder::new();
    enc.set_compression(Some(256));
    enc.append_packet(&pkt).unwrap();
    enc.clear();
    assert_eq!(enc.take(), Vec::<u8>::new());
    // threshold survived: a 300-byte payload still takes the compressed path
    let big = packet_with_payload_len(300);
    enc.append_packet(&big).unwrap();
    let frame = enc.take();
    let (_, outer_used) = VarInt::decode(&frame).unwrap();
    let (inner, _) = VarInt::decode(&frame[outer_used..]).unwrap();
    assert_eq!(inner, VarInt(300));
}

#[test]
fn encryption_cannot_be_enabled_twice() {
    let mut enc = PacketEncoder::new();
    assert!(!enc.is_encryption_enabled());
    enc.enable_encryption(&[1u8; 16]);
    assert!(enc.is_encryption_enabled());
}
