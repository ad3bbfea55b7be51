//! The message types this layer carries, with their payload layouts. Each
//! implements `Packet`: its payload encoding is stated byte for byte, and
//! decoding is proved to succeed on exactly the encodings of valid values.

use vstd::prelude::*;

use crate::packet::{DecodeError, Packet};
use vstd::string::StrSliceExecFns;
use vstd::utf8::{
    decode_utf8, decode_utf8_encode_utf8, encode_utf8, encode_utf8_decode_utf8,
    encode_utf8_valid_utf8, valid_utf8,
};
use crate::var_int::{
    bits_to_i32, i32_bits, lemma_encode_len_bound, lemma_pow128_values, lemma_raw_decode_encode,
    lemma_raw_decode_structure, raw_decode, varint_encode, VarInt,
};

verus! {

/// Whether two byte slices hold the same bytes.
fn bytes_eq(a: &[u8], b: &[u8]) -> (r: bool)
    ensures
        r <==> a@ == b@,
{
    if a.len() != b.len() {
        proof {
            assert(a@.len() != b@.len());
        }
        return false;
    }
    let n = a.len();
    let mut i: usize = 0;
    while i < n
        invariant
            n == a@.len() == b@.len(),
            0 <= i <= n,
            forall|j: int| 0 <= j < i ==> a@[j] == b@[j],
        decreases n - i,
    {
        if a[i] != b[i] {
            return false;
        }
        i = i + 1;
    }
    proof {
        assert(a@ =~= b@);
    }
    true
}

/// Reads one canonically encoded 32-bit varint from the front of `bytes`:
/// the value and the bytes consumed, or nothing where no 32-bit value's
/// encoding starts `bytes`.
fn read_var_int_prefix(bytes: &[u8]) -> (r: Option<(i32, usize)>)
    ensures
        match r {
            Some((v, n)) => n <= bytes@.len() && bytes@.take(n as int) == varint_encode(
                i32_bits(v),
            ),
            None => forall|v: i32|
                !(#[trigger] varint_encode(i32_bits(v))).is_prefix_of(bytes@),
        },
{
    proof {
        lemma_raw_decode_structure(bytes@);
    }
    let parsed = match VarInt::decode(bytes) {
        Ok(p) => p,
        Err(_) => {
            proof {
                assert forall|v: i32| !(#[trigger] varint_encode(i32_bits(v))).is_prefix_of(
                    bytes@,
                ) by {
                    if varint_encode(i32_bits(v)).is_prefix_of(bytes@) {
                        let enc = varint_encode(i32_bits(v));
                        assert(bytes@ =~= enc + bytes@.skip(enc.len() as int));
                        lemma_raw_decode_encode(i32_bits(v), bytes@.skip(enc.len() as int));
                        lemma_pow128_values();
                        lemma_encode_len_bound(i32_bits(v), 5);
                    }
                }
            }
            return None;
        },
    };
    let (value, n) = parsed;
    let mut canon: Vec<u8> = Vec::new();
    value.encode(&mut canon);
    let consumed = vstd::slice::slice_subrange(bytes, 0, n);
    if bytes_eq(canon.as_slice(), consumed) {
        proof {
            assert(bytes@.take(n as int) == varint_encode(i32_bits(value.0)));
        }
        Some((value.0, n))
    } else {
        proof {
            assert forall|v: i32| !(#[trigger] varint_encode(i32_bits(v))).is_prefix_of(
                bytes@,
            ) by {
                if varint_encode(i32_bits(v)).is_prefix_of(bytes@) {
                    let enc = varint_encode(i32_bits(v));
                    assert(bytes@ =~= enc + bytes@.skip(enc.len() as int));
                    lemma_raw_decode_encode(i32_bits(v), bytes@.skip(enc.len() as int));
                    assert(raw_decode(bytes@) matches Some(p) && p.0 == i32_bits(v) && p.1
                        == enc.len());
                    assert(i32_bits(value.0) == i32_bits(v) % 0x1_0000_0000);
                    assert(i32_bits(v) < 0x1_0000_0000);
                    assert(i32_bits(value.0) == i32_bits(v));
                    assert(canon@ == enc);
                    assert(bytes@.take(n as int) =~= enc);
                }
            }
        }
        None
    }
}

/// The big-endian four-byte form of a 32-bit pattern.
pub open spec fn be32(bits: nat) -> Seq<u8> {
    seq![
        (bits / 0x100_0000 % 0x100) as u8,
        (bits / 0x1_0000 % 0x100) as u8,
        (bits / 0x100 % 0x100) as u8,
        (bits % 0x100) as u8,
    ]
}

/// The 32-bit pattern held by four big-endian bytes.
pub open spec fn be32_val(s: Seq<u8>) -> nat {
    ((s[0] as nat) * 0x100_0000 + (s[1] as nat) * 0x1_0000 + (s[2] as nat) * 0x100 + (
    s[3] as nat)) as nat
}

/// Four big-endian bytes carry their pattern faithfully, both ways.
pub proof fn lemma_be32_round_trip(bits: nat, s: Seq<u8>)
    ensures
        bits < 0x1_0000_0000 ==> be32_val(be32(bits)) == bits,
        s.len() == 4 ==> be32(be32_val(s)) == s && be32_val(s) < 0x1_0000_0000,
{
    if bits < 0x1_0000_0000 {
        vstd::arithmetic::div_mod::lemma_fundamental_div_mod(bits as int, 0x100_0000);
        vstd::arithmetic::div_mod::lemma_fundamental_div_mod(bits as int, 0x1_0000);
        vstd::arithmetic::div_mod::lemma_fundamental_div_mod(bits as int, 0x100);
        vstd::arithmetic::div_mod::lemma_fundamental_div_mod((bits % 0x100_0000) as int, 0x1_0000);
        vstd::arithmetic::div_mod::lemma_fundamental_div_mod((bits % 0x1_0000) as int, 0x100);
        assert(be32_val(be32(bits)) == bits) by (nonlinear_arith)
            requires
                bits < 0x1_0000_0000,
        ;
    }
    if s.len() == 4 {
        let v = be32_val(s);
        assert(v < 0x1_0000_0000);
        assert(be32(v) =~= s) by {
            assert(v / 0x100_0000 % 0x100 == s[0] && v / 0x1_0000 % 0x100 == s[1] && v / 0x100
                % 0x100 == s[2] && v % 0x100 == s[3]) by (nonlinear_arith)
                requires
                    v == (s[0] as nat) * 0x100_0000 + (s[1] as nat) * 0x1_0000 + (s[2] as nat)
                        * 0x100 + (s[3] as nat),
                    s[0] < 0x100,
                    s[1] < 0x100,
                    s[2] < 0x100,
                    s[3] < 0x100,
            ;
        }
    }
}

/// Appends the big-endian four-byte form of `x`.
fn push_be32(buf: &mut Vec<u8>, x: u32)
    ensures
        final(buf)@ == old(buf)@ + be32(x as nat),
{
    buf.push((x / 0x100_0000 % 0x100) as u8);
    buf.push((x / 0x1_0000 % 0x100) as u8);
    buf.push((x / 0x100 % 0x100) as u8);
    buf.push((x % 0x100) as u8);
    proof {
        assert(buf@ =~= old(buf)@ + be32(x as nat));
    }
}

/// Reads the big-endian four-byte pattern at `off`.
fn read_be32(bytes: &[u8], off: usize) -> (r: u32)
    requires
        off + 4 <= bytes@.len(),
    ensures
        r as nat == be32_val(bytes@.subrange(off as int, off as int + 4)),
        (r as nat) < 0x1_0000_0000,
{
    let b0 = bytes[off];
    let b1 = bytes[off + 1];
    let b2 = bytes[off + 2];
    let b3 = bytes[off + 3];
    let value = (b0 as u32) * 0x100_0000 + (b1 as u32) * 0x1_0000 + (b2 as u32) * 0x100 + (
    b3 as u32);
    proof {
        let sub = bytes@.subrange(off as int, off as int + 4);
        assert(sub[0] == b0 && sub[1] == b1 && sub[2] == b2 && sub[3] == b3);
    }
    value
}

/// A block position: three signed coordinates, carried as three big-endian
/// 32-bit fields in packet payloads.
#[derive(Clone, Copy, Debug, PartialEq, Eq, Structural)]
pub struct BlockPos {
    pub x: i32,
    pub y: i32,
    pub z: i32,
}

impl BlockPos {
    /// The twelve payload bytes of this position.
    pub open spec fn spec_bytes(self) -> Seq<u8> {
        be32(i32_bits(self.x)) + be32(i32_bits(self.y)) + be32(i32_bits(self.z))
    }
}

/// A client's status request: respawn, or the statistics screen.
#[derive(Clone, Copy, Debug, PartialEq, Eq, Structural)]
pub enum ClientStatusC2s {
    PerformRespawn,
    RequestStats,
}

impl Packet for ClientStatusC2s {
    open spec fn wire(&self) -> Seq<u8> {
        match self {
            ClientStatusC2s::PerformRespawn => seq![0u8],
            ClientStatusC2s::RequestStats => seq![1u8],
        }
    }

    open spec fn valid(&self) -> bool {
        true
    }

    fn encode_packet(&self, buf: &mut Vec<u8>) {
        match self {
            ClientStatusC2s::PerformRespawn => buf.push(0),
            ClientStatusC2s::RequestStats => buf.push(1),
        }
        proof {
            assert(buf@ =~= old(buf)@ + self.wire());
        }
    }

    fn decode_packet(bytes: &[u8]) -> (r: Result<Self, DecodeError>) {
        if bytes.len() == 1 {
            let b = bytes[0];
            if b == 0 {
                proof {
                    assert(bytes@ =~= seq![0u8]);
                }
                return Ok(ClientStatusC2s::PerformRespawn);
            }
            if b == 1 {
                proof {
                    assert(bytes@ =~= seq![1u8]);
                }
                return Ok(ClientStatusC2s::RequestStats);
            }
        }
        proof {
            assert forall|q: ClientStatusC2s| !(q.valid() && q.wire() == bytes@) by {
                if q.wire() == bytes@ {
                    assert(bytes@.len() == 1);
                    assert(bytes@[0] == 0 || bytes@[0] == 1);
                }
            }
        }
        Err(DecodeError::MalformedPayload)
    }
}

/// Tells the client the compression threshold the connection will use.
#[derive(Clone, Copy, Debug, PartialEq, Eq, Structural)]
pub struct LoginCompressionS2c {
    pub threshold: VarInt,
}

impl Packet for LoginCompressionS2c {
    open spec fn wire(&self) -> Seq<u8> {
        varint_encode(i32_bits(self.threshold.0))
    }

    open spec fn valid(&self) -> bool {
        true
    }

    fn encode_packet(&self, buf: &mut Vec<u8>) {
        self.threshold.encode(buf);
    }

    fn decode_packet(bytes: &[u8]) -> (r: Result<Self, DecodeError>) {
        let parsed = read_var_int_prefix(bytes);
        match parsed {
            Some((v, n)) if n == bytes.len() => {
                proof {
                    assert(bytes@.take(n as int) =~= bytes@);
                }
                Ok(LoginCompressionS2c { threshold: VarInt(v) })
            },
            _ => {
                proof {
                    assert forall|q: LoginCompressionS2c| !(q.valid() && q.wire() == bytes@) by {
                        if q.wire() == bytes@ {
                            let enc = varint_encode(i32_bits(q.threshold.0));
                            assert(enc.is_prefix_of(bytes@)) by {
                                assert(bytes@.take(enc.len() as int) =~= enc);
                            }
                            match parsed {
                                Some((v, n)) => {
                                    lemma_varint_same_stream(
                                        i32_bits(v),
                                        i32_bits(q.threshold.0),
                                        bytes@,
                                    );
                                },
                                None => {},
                            }
                        }
                    }
                }
                Err(DecodeError::MalformedPayload)
            },
        }
    }
}

/// Asks for the named block entity's data.
#[derive(Clone, Copy, Debug, PartialEq, Eq, Structural)]
pub struct QueryBlockNbtC2s {
    pub transaction_id: VarInt,
    pub position: BlockPos,
}

impl Packet for QueryBlockNbtC2s {
    open spec fn wire(&self) -> Seq<u8> {
        varint_encode(i32_bits(self.transaction_id.0)) + self.position.spec_bytes()
    }

    open spec fn valid(&self) -> bool {
        true
    }

    fn encode_packet(&self, buf: &mut Vec<u8>) {
        self.transaction_id.encode(buf);
        push_be32(buf, VarInt(self.position.x).bits());
        push_be32(buf, VarInt(self.position.y).bits());
        push_be32(buf, VarInt(self.position.z).bits());
        proof {
            assert(buf@ =~= old(buf)@ + self.wire());
        }
    }

    fn decode_packet(bytes: &[u8]) -> (r: Result<Self, DecodeError>) {
        let parsed = read_var_int_prefix(bytes);
        match parsed {
            Some((tid, n)) if bytes.len() - n == 12 => {
                let xb = read_be32(bytes, n);
                let yb = read_be32(bytes, n + 4);
                let zb = read_be32(bytes, n + 8);
                let pos = BlockPos {
                    x: bits_to_i32(xb),
                    y: bits_to_i32(yb),
                    z: bits_to_i32(zb),
                };
                let p = QueryBlockNbtC2s { transaction_id: VarInt(tid), position: pos };
                proof {
                    lemma_be32_round_trip(0, bytes@.subrange(n as int, n as int + 4));
                    lemma_be32_round_trip(0, bytes@.subrange(n as int + 4, n as int + 8));
                    lemma_be32_round_trip(0, bytes@.subrange(n as int + 8, n as int + 12));
                    assert(p.wire() =~= bytes@.take(n as int) + bytes@.subrange(
                        n as int,
                        n as int + 4,
                    ) + bytes@.subrange(n as int + 4, n as int + 8) + bytes@.subrange(
                        n as int + 8,
                        n as int + 12,
                    ));
                    assert(p.wire() =~= bytes@);
                }
                Ok(p)
            },
            _ => {
                proof {
                    assert forall|q: QueryBlockNbtC2s| !(q.valid() && q.wire() == bytes@) by {
                        if q.wire() == bytes@ {
                            let enc = varint_encode(i32_bits(q.transaction_id.0));
                            assert(enc.is_prefix_of(bytes@)) by {
                                assert(bytes@.take(enc.len() as int) =~= enc);
                            }
                            assert(bytes@.len() == enc.len() + 12);
                            match parsed {
                                Some((v, n)) => {
                                    assert(varint_encode(i32_bits(v)) == bytes@.take(n as int));
                                    lemma_varint_same_stream(
                                        i32_bits(v),
                                        i32_bits(q.transaction_id.0),
                                        bytes@,
                                    );
                                    assert(n == enc.len());
                                },
                                None => {},
                            }
                        }
                    }
                }
                Err(DecodeError::MalformedPayload)
            },
        }
    }
}

/// Two values whose canonical encodings both start the same stream are the
/// same value with the same encoding length.
proof fn lemma_varint_same_stream(a: nat, b: nat, s: Seq<u8>)
    requires
        varint_encode(a).is_prefix_of(s),
        varint_encode(b).is_prefix_of(s),
    ensures
        a == b,
        varint_encode(a) == varint_encode(b),
{
    assert(s =~= varint_encode(a) + s.skip(varint_encode(a).len() as int));
    assert(s =~= varint_encode(b) + s.skip(varint_encode(b).len() as int));
    lemma_raw_decode_encode(a, s.skip(varint_encode(a).len() as int));
    lemma_raw_decode_encode(b, s.skip(varint_encode(b).len() as int));
}

/// The wire form of a string: its UTF-8 byte count, then those bytes.
pub open spec fn string_wire(s: Seq<char>) -> Seq<u8> {
    varint_encode(encode_utf8(s).len()) + encode_utf8(s)
}

/// Relies on String::from_utf8: it succeeds exactly on valid UTF-8 and
/// returns the string those bytes encode.
#[verifier::external_body]
fn string_from_utf8(bytes: Vec<u8>) -> (r: Option<String>)
    ensures
        match r {
            Some(s) => valid_utf8(bytes@) && s@ == decode_utf8(bytes@),
            None => !valid_utf8(bytes@),
        },
{
    String::from_utf8(bytes).ok()
}

/// Appends the wire form of `s`.
fn write_string(s: &String, buf: &mut Vec<u8>)
    requires
        encode_utf8(s@).len() < 0x8000_0000,
    ensures
        final(buf)@ == old(buf)@ + string_wire(s@),
{
    let mut utf8_bytes = s.as_str().as_bytes_vec();
    let prefix = VarInt(utf8_bytes.len() as i32);
    assert(i32_bits(prefix.0) == encode_utf8(s@).len());
    prefix.encode(buf);
    buf.append(&mut utf8_bytes);
    proof {
        assert(buf@ =~= old(buf)@ + string_wire(s@));
    }
}

/// Two strings whose wire forms both start the same stream are the same
/// string with the same wire form.
proof fn lemma_string_same_stream(t1: Seq<char>, t2: Seq<char>, s: Seq<u8>)
    requires
        string_wire(t1).is_prefix_of(s),
        string_wire(t2).is_prefix_of(s),
    ensures
        t1 == t2,
        string_wire(t1) == string_wire(t2),
{
    let l1 = encode_utf8(t1).len();
    let l2 = encode_utf8(t2).len();
    assert(varint_encode(l1).is_prefix_of(s)) by {
        assert(s.take(varint_encode(l1).len() as int) =~= varint_encode(l1));
    }
    assert(varint_encode(l2).is_prefix_of(s)) by {
        assert(s.take(varint_encode(l2).len() as int) =~= varint_encode(l2));
    }
    lemma_varint_same_stream(l1, l2, s);
    let k = varint_encode(l1).len() as int;
    assert(string_wire(t1) =~= s.subrange(0, string_wire(t1).len() as int));
    assert(string_wire(t2) =~= s.subrange(0, string_wire(t2).len() as int));
    assert(encode_utf8(t1) =~= s.subrange(k, k + l1 as int)) by {
        assert forall|j: int| 0 <= j < l1 implies encode_utf8(t1)[j] == s[k + j] by {
            assert(string_wire(t1)[k + j] == encode_utf8(t1)[j]);
            assert(string_wire(t1)[k + j] == s.subrange(0, string_wire(t1).len() as int)[k + j]);
        }
    }
    assert(encode_utf8(t2) =~= s.subrange(k, k + l2 as int)) by {
        assert forall|j: int| 0 <= j < l2 implies encode_utf8(t2)[j] == s[k + j] by {
            assert(string_wire(t2)[k + j] == encode_utf8(t2)[j]);
            assert(string_wire(t2)[k + j] == s.subrange(0, string_wire(t2).len() as int)[k + j]);
        }
    }
    encode_utf8_decode_utf8(t1);
    encode_utf8_decode_utf8(t2);
}

/// Reads one wire-form string from the front of `bytes`: the string and
/// the bytes consumed, or nothing where no string's wire form starts
/// `bytes`.
fn read_string(bytes: &[u8]) -> (r: Option<(String, usize)>)
    ensures
        match r {
            Some((s, n)) => {
                &&& n <= bytes@.len()
                &&& encode_utf8(s@).len() < 0x8000_0000
                &&& bytes@.take(n as int) == string_wire(s@)
            },
            None => forall|t: Seq<char>|
                encode_utf8(t).len() < 0x8000_0000 ==> !(#[trigger] string_wire(t)).is_prefix_of(
                    bytes@,
                ),
        },
{
    let parsed = read_var_int_prefix(bytes);
    let (len_i, n) = match parsed {
        Some(p) => p,
        None => {
            proof {
                assert forall|t: Seq<char>|
                    encode_utf8(t).len() < 0x8000_0000 implies !(
                #[trigger] string_wire(t)).is_prefix_of(bytes@) by {
                    if string_wire(t).is_prefix_of(bytes@) {
                        let lv = encode_utf8(t).len() as i32;
                        assert(i32_bits(lv) == encode_utf8(t).len());
                        assert(varint_encode(i32_bits(lv)).is_prefix_of(bytes@)) by {
                            assert(bytes@.take(varint_encode(i32_bits(lv)).len() as int)
                                =~= varint_encode(i32_bits(lv)));
                        }
                    }
                }
            }
            return None;
        },
    };
    if len_i < 0 || bytes.len() - n < len_i as usize {
        proof {
            assert forall|t: Seq<char>|
                encode_utf8(t).len() < 0x8000_0000 implies !(
            #[trigger] string_wire(t)).is_prefix_of(bytes@) by {
                if string_wire(t).is_prefix_of(bytes@) {
                    let l = encode_utf8(t).len();
                    assert(varint_encode(l).is_prefix_of(bytes@)) by {
                        assert(bytes@.take(varint_encode(l).len() as int) =~= varint_encode(l));
                    }
                    assert(varint_encode(i32_bits(len_i)).is_prefix_of(bytes@)) by {
                        assert(bytes@.take(n as int) == varint_encode(i32_bits(len_i)));
                    }
                    lemma_varint_same_stream(i32_bits(len_i), l, bytes@);
                    assert(string_wire(t).len() == n + l);
                }
            }
        }
        return None;
    }
    let sl = len_i as usize;
    let utf8_part = vstd::slice::slice_to_vec(vstd::slice::slice_subrange(bytes, n, n + sl));
    match string_from_utf8(utf8_part) {
        Some(s) => {
            proof {
                let sub = bytes@.subrange(n as int, (n + sl) as int);
                decode_utf8_encode_utf8(sub);
                assert(encode_utf8(s@) == sub);
                assert(bytes@.take((n + sl) as int) =~= bytes@.take(n as int) + sub);
                assert(i32_bits(len_i) == sl);
                assert(bytes@.take((n + sl) as int) =~= string_wire(s@));
            }
            Some((s, n + sl))
        },
        None => {
            proof {
                assert forall|t: Seq<char>|
                    encode_utf8(t).len() < 0x8000_0000 implies !(
                #[trigger] string_wire(t)).is_prefix_of(bytes@) by {
                    if string_wire(t).is_prefix_of(bytes@) {
                        let l = encode_utf8(t).len();
                        assert(varint_encode(l).is_prefix_of(bytes@)) by {
                            assert(bytes@.take(varint_encode(l).len() as int) =~= varint_encode(
                                l,
                            ));
                        }
                        assert(varint_encode(i32_bits(len_i)).is_prefix_of(bytes@)) by {
                            assert(bytes@.take(n as int) == varint_encode(i32_bits(len_i)));
                        }
                        lemma_varint_same_stream(i32_bits(len_i), l, bytes@);
                        assert(string_wire(t) =~= bytes@.subrange(
                            0,
                            string_wire(t).len() as int,
                        ));
                        assert(encode_utf8(t) =~= bytes@.subrange(n as int, (n + sl) as int)) by {
                            assert forall|j: int| 0 <= j < l implies encode_utf8(t)[j] == bytes@[n
                                + j] by {
                                assert(string_wire(t)[n + j] == encode_utf8(t)[j]);
                                assert(string_wire(t)[n + j] == bytes@.subrange(
                                    0,
                                    string_wire(t).len() as int,
                                )[n + j]);
                            }
                        }
                        encode_utf8_valid_utf8(t);
                    }
                }
            }
            None
        },
    }
}

/// Kicks a client, giving the reason shown on its screen.
#[derive(Clone, Debug, PartialEq, Eq)]
pub struct DisconnectS2c {
    pub reason: String,
}

impl Packet for DisconnectS2c {
    open spec fn wire(&self) -> Seq<u8> {
        string_wire(self.reason@)
    }

    open spec fn valid(&self) -> bool {
        encode_utf8(self.reason@).len() < 0x8000_0000
    }

    fn encode_packet(&self, buf: &mut Vec<u8>) {
        write_string(&self.reason, buf);
    }

    fn decode_packet(bytes: &[u8]) -> (r: Result<Self, DecodeError>) {
        let parsed = read_string(bytes);
        match parsed {
            Some((s, n)) if n == bytes.len() => {
                proof {
                    assert(bytes@.take(n as int) =~= bytes@);
                }
                Ok(DisconnectS2c { reason: s })
            },
            _ => {
                proof {
                    assert forall|q: DisconnectS2c| !(q.valid() && q.wire() == bytes@) by {
                        if q.valid() && q.wire() == bytes@ {
                            assert(string_wire(q.reason@).is_prefix_of(bytes@)) by {
                                assert(bytes@.take(bytes@.len() as int) =~= bytes@);
                            }
                            match parsed {
                                Some((s, n)) => {
                                    assert(string_wire(s@).is_prefix_of(bytes@)) by {
                                        assert(bytes@.take(n as int) == string_wire(s@));
                                    }
                                    lemma_string_same_stream(s@, q.reason@, bytes@);
                                },
                                None => {},
                            }
                        }
                    }
                }
                Err(DecodeError::MalformedPayload)
            },
        }
    }
}

/// Rewrites the command of a command-block minecart.
#[derive(Clone, Debug, PartialEq, Eq)]
pub struct UpdateCommandBlockMinecartC2s {
    pub entity_id: VarInt,
    pub command: String,
    pub track_output: bool,
}

impl Packet for UpdateCommandBlockMinecartC2s {
    open spec fn wire(&self) -> Seq<u8> {
        varint_encode(i32_bits(self.entity_id.0)) + string_wire(self.command@) + seq![
            if self.track_output {
                1u8
            } else {
                0u8
            }
        ]
    }

    open spec fn valid(&self) -> bool {
        encode_utf8(self.command@).len() < 0x8000_0000
    }

    fn encode_packet(&self, buf: &mut Vec<u8>) {
        self.entity_id.encode(buf);
        write_string(&self.command, buf);
        buf.push(if self.track_output { 1 } else { 0 });
        proof {
            assert(buf@ =~= old(buf)@ + self.wire());
        }
    }

    fn decode_packet(bytes: &[u8]) -> (r: Result<Self, DecodeError>) {
        let head = read_var_int_prefix(bytes);
        if let Some((eid, n1)) = head {
            let rest = vstd::slice::slice_subrange(bytes, n1, bytes.len());
            let parsed = read_string(rest);
            if let Some((cmd, n2)) = parsed {
                if rest.len() - n2 == 1 {
                    let tb = rest[n2];
                    if tb == 0 || tb == 1 {
                        let p = UpdateCommandBlockMinecartC2s {
                            entity_id: VarInt(eid),
                            command: cmd,
                            track_output: tb == 1,
                        };
                        proof {
                            assert(rest@ =~= rest@.take(n2 as int) + seq![tb]);
                            assert(bytes@ =~= bytes@.take(n1 as int) + rest@);
                            assert(p.wire() =~= bytes@);
                        }
                        return Ok(p);
                    }
                }
            }
            proof {
                assert forall|q: UpdateCommandBlockMinecartC2s|
                    !(q.valid() && q.wire() == bytes@) by {
                    if q.valid() && q.wire() == bytes@ {
                        let enc_q = varint_encode(i32_bits(q.entity_id.0));
                        let sw_q = string_wire(q.command@);
                        assert(varint_encode(i32_bits(q.entity_id.0)).is_prefix_of(bytes@)) by {
                            assert(bytes@.take(enc_q.len() as int) =~= enc_q);
                        }
                        assert(varint_encode(i32_bits(eid)).is_prefix_of(bytes@)) by {
                            assert(bytes@.take(n1 as int) == varint_encode(i32_bits(eid)));
                        }
                        lemma_varint_same_stream(i32_bits(eid), i32_bits(q.entity_id.0), bytes@);
                        assert(n1 == enc_q.len());
                        assert(rest@ =~= sw_q + seq![
                            if q.track_output {
                                1u8
                            } else {
                                0u8
                            }
                        ]);
                        assert(sw_q.is_prefix_of(rest@)) by {
                            assert(rest@.take(sw_q.len() as int) =~= sw_q);
                        }
                        match parsed {
                            Some((cmd, n2)) => {
                                assert(string_wire(cmd@).is_prefix_of(rest@)) by {
                                    assert(rest@.take(n2 as int) == string_wire(cmd@));
                                }
                                lemma_string_same_stream(cmd@, q.command@, rest@);
                                assert(n2 == sw_q.len());
                                assert(rest@.len() - n2 == 1);
                                assert(rest@[n2 as int] == 0 || rest@[n2 as int] == 1);
                            },
                            None => {},
                        }
                    }
                }
            }
            return Err(DecodeError::MalformedPayload);
        }
        proof {
            assert forall|q: UpdateCommandBlockMinecartC2s|
                !(q.valid() && q.wire() == bytes@) by {
                if q.valid() && q.wire() == bytes@ {
                    let enc_q = varint_encode(i32_bits(q.entity_id.0));
                    assert(varint_encode(i32_bits(q.entity_id.0)).is_prefix_of(bytes@)) by {
                        assert(bytes@.take(enc_q.len() as int) =~= enc_q);
                    }
                }
            }
        }
        Err(DecodeError::MalformedPayload)
    }
}

} // verus!
