//! Variable-length integer codecs and packet payload round trips.

use valence_packet::packet::{DecodeError, Packet};
use valence_packet::packets::{
    BlockPos, ClientStatusC2s, DisconnectS2c, LoginCompressionS2c, QueryBlockNbtC2s,
    UpdateCommandBlockMinecartC2s,
};
use valence_packet::var_int::{VarInt, VarIntError, VAR_INT_MAX_BYTES};
use valence_packet::var_long::{VarLong, VAR_LONG_MAX_BYTES};

fn encode_var_int(v: i32) -> Vec<u8> {
    let mut buf = Vec::new();
    VarInt(v).encode(&mut buf);
    buf
}

fn encode_var_long(v: i64) -> Vec<u8> {
    let mut buf = Vec::new();
    VarLong(v).encode(&mut buf);
    buf
}

#[test]
fn var_int_known_encodings() {
    assert_eq!(encode_var_int(0), vec![0x00]);
    assert_eq!(encode_var_int(1), vec![0x01]);
    assert_eq!(encode_var_int(127), vec![0x7F]);
    assert_eq!(encode_var_int(128), vec![0x80, 0x01]);
    assert_eq!(encode_var_int(2097151), vec![0xFF, 0xFF, 0x7F]);
    assert_eq!(encode_var_int(-1), vec![0xFF, 0xFF, 0xFF, 0xFF, 0x0F]);
}

#[test]
fn var_int_round_trip() {
    let cases: [i32; 14] = [
        0,
        1,
        -1,
        127,
        128,
        255,
        256,
        25565,
        2097151,
        2097152,
        i32::MAX,
        i32::MIN,
        -2097152,
        -313,
    ];
    for &v in cases.iter() {
        let buf = encode_var_int(v);
        assert!(1 <= buf.len() && buf.len() <= VAR_INT_MAX_BYTES);
        assert_eq!(buf.len(), VarInt(v).written_size());
        let (decoded, used) = VarInt::decode(&buf).expect("round trip must decode");
        assert_eq!(decoded, VarInt(v));
        assert_eq!(used, buf.len());
    }
}

#[test]
fn var_int_decode_ignores_trailing_bytes() {
    let mut buf = encode_var_int(300);
    let used_expected = buf.len();
    buf.push(0xAB);
    buf.push(0xCD);
    let (decoded, used) = VarInt::decode(&buf).unwrap();
    assert_eq!(decoded, VarInt(300));
    assert_eq!(used, used_expected);
}

#[test]
fn var_int_malformed_continuation_run() {
    assert_eq!(
        VarInt::decode(&[0xFF, 0xFF, 0xFF, 0xFF, 0xFF, 0xFF]),
        Err(VarIntError::Malformed)
    );
    assert_eq!(
        VarInt::decode(&[0x80, 0x80, 0x80, 0x80, 0x80]),
        Err(VarIntError::Malformed)
    );
}

#[test]
fn var_int_truncated_input() {
    assert_eq!(VarInt::decode(&[]), Err(VarIntError::Truncated));
    assert_eq!(VarInt::decode(&[0x80]), Err(VarIntError::Truncated));
    assert_eq!(
        VarInt::decode(&[0xFF, 0xFF, 0xFF, 0xFF]),
        Err(VarIntError::Truncated)
    );
}

#[test]
fn var_long_known_encodings() {
    assert_eq!(encode_var_long(0), vec![0x00]);
    assert_eq!(
        encode_var_long(-1),
        vec![0xFF, 0xFF, 0xFF, 0xFF, 0xFF, 0xFF, 0xFF, 0xFF, 0xFF, 0x01]
    );
    assert_eq!(encode_var_long(2097151), vec![0xFF, 0xFF, 0x7F]);
}

#[test]
fn var_long_round_trip() {
    let cases: [i64; 12] = [
        0,
        1,
        -1,
        127,
        128,
        25565,
        2097151,
        i64::from(i32::MAX),
        i64::from(i32::MIN),
        i64::MAX,
        i64::MIN,
        -4_000_000_000,
    ];
    for &v in cases.iter() {
        let buf = encode_var_long(v);
        assert!(1 <= buf.len() && buf.len() <= VAR_LONG_MAX_BYTES);
        assert_eq!(buf.len(), VarLong(v).written_size());
        let (decoded, used) = VarLong::decode(&buf).expect("round trip must decode");
        assert_eq!(decoded, VarLong(v));
        assert_eq!(used, buf.len());
    }
}

#[test]
fn var_long_malformed_continuation_run() {
    let all_set = [0xFFu8; 11];
    assert_eq!(VarLong::decode(&all_set), Err(VarIntError::Malformed));
}

#[test]
fn var_long_truncated_input() {
    let nine = [0x80u8; 9];
    assert_eq!(VarLong::decode(&nine), Err(VarIntError::Truncated));
}

fn payload_of<P: Packet>(pkt: &P) -> Vec<u8> {
    let mut buf = Vec::new();
    pkt.encode_packet(&mut buf);
    buf
}

#[test]
fn client_status_round_trip() {
    for pkt in [ClientStatusC2s::PerformRespawn, ClientStatusC2s::RequestStats] {
        let bytes = payload_of(&pkt);
        assert_eq!(ClientStatusC2s::decode_packet(&bytes), Ok(pkt));
    }
    assert_eq!(payload_of(&ClientStatusC2s::PerformRespawn), vec![0x00]);
    assert_eq!(payload_of(&ClientStatusC2s::RequestStats), vec![0x01]);
}

#[test]
fn client_status_rejects_unknown_tag() {
    assert_eq!(
        ClientStatusC2s::decode_packet(&[0x02]),
        Err(DecodeError::MalformedPayload)
    );
    assert_eq!(
        ClientStatusC2s::decode_packet(&[]),
        Err(DecodeError::MalformedPayload)
    );
    assert_eq!(
        ClientStatusC2s::decode_packet(&[0x00, 0x00]),
        Err(DecodeError::MalformedPayload)
    );
}

#[test]
fn login_compression_round_trip() {
    for v in [-1, 0, 256, 2097151, i32::MIN] {
        let pkt = LoginCompressionS2c { threshold: VarInt(v) };
        let bytes = payload_of(&pkt);
        assert_eq!(LoginCompressionS2c::decode_packet(&bytes), Ok(pkt));
    }
}

#[test]
fn login_compression_rejects_noncanonical_prefix() {
    // 0x80 0x00 also decodes to zero, but zero's encoding is the single
    // byte 0x00: the payload is not an encoding of any packet.
    assert_eq!(
        LoginCompressionS2c::decode_packet(&[0x80, 0x00]),
        Err(DecodeError::MalformedPayload)
    );
}

#[test]
fn query_block_nbt_round_trip() {
    let pkt = QueryBlockNbtC2s {
        transaction_id: VarInt(777),
        position: BlockPos { x: -30_000_000, y: -64, z: 29_999_999 },
    };
    let bytes = payload_of(&pkt);
    assert_eq!(QueryBlockNbtC2s::decode_packet(&bytes), Ok(pkt));
}

#[test]
fn query_block_nbt_rejects_wrong_tail() {
    let pkt = QueryBlockNbtC2s {
        transaction_id: VarInt(1),
        position: BlockPos { x: 0, y: 0, z: 0 },
    };
    let mut bytes = payload_of(&pkt);
    bytes.pop();
    assert_eq!(
        QueryBlockNbtC2s::decode_packet(&bytes),
        Err(DecodeError::MalformedPayload)
    );
}

#[test]
fn disconnect_round_trip() {
    for reason in ["", "kicked", "h\u{e9}llo \u{2603} world"] {
        let pkt = DisconnectS2c { reason: reason.to_string() };
        let bytes = payload_of(&pkt);
        assert_eq!(DisconnectS2c::decode_packet(&bytes), Ok(pkt));
    }
}

#[test]
fn disconnect_rejects_invalid_utf8() {
    // length prefix 2, then an invalid UTF-8 sequence
    assert_eq!(
        DisconnectS2c::decode_packet(&[0x02, 0xC0, 0x80]),
        Err(DecodeError::MalformedPayload)
    );
}

#[test]
fn disconnect_rejects_truncated_text() {
    // declares four bytes of text but carries two
    assert_eq!(
        DisconnectS2c::decode_packet(&[0x04, b'h', b'i']),
        Err(DecodeError::MalformedPayload)
    );
}

#[test]
fn update_command_block_minecart_round_trip() {
    for (cmd, track) in [("say hi", true), ("", false), ("tp @p ~ ~1 ~", false)] {
        let pkt = UpdateCommandBlockMinecartC2s {
            entity_id: VarInt(4242),
            command: cmd.to_string(),
            track_output: track,
        };
        let bytes = payload_of(&pkt);
        assert_eq!(UpdateCommandBlockMinecartC2s::decode_packet(&bytes), Ok(pkt));
    }
}

#[test]
fn update_command_block_minecart_rejects_bad_flag_byte() {
    let pkt = UpdateCommandBlockMinecartC2s {
        entity_id: VarInt(1),
        command: "x".to_string(),
        track_output: true,
    };
    let mut bytes = payload_of(&pkt);
    let last = bytes.len() - 1;
    bytes[last] = 0x02;
    assert_eq!(
        UpdateCommandBlockMinecartC2s::decode_packet(&bytes),
        Err(DecodeError::MalformedPayload)
    );
}
