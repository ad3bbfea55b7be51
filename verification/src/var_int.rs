//! Variable-length encoding of 32-bit signed integers: seven value bits per
//! byte, high bit set on every byte but the last. The two's-complement bit
//! pattern is encoded directly, with no sign folding, so negative values
//! always take the maximum five bytes.

use vstd::prelude::*;

verus! {

/// Most bytes a 32-bit varint may occupy on the wire.
pub const VAR_INT_MAX_BYTES: usize = 5;

/// Why decoding a variable-length integer stopped without a value.
#[derive(Clone, Copy, Debug, PartialEq, Eq, Structural)]
pub enum VarIntError {
    /// The input ended before a terminating byte: more data is needed.
    Truncated,
    /// The continuation-bit run exceeds the type's maximum byte count.
    Malformed,
}

/// The unsigned bit pattern of a 32-bit signed integer.
pub open spec fn i32_bits(v: i32) -> nat {
    if v >= 0 {
        v as nat
    } else {
        (v + 0x1_0000_0000) as nat
    }
}

/// The unsigned bit pattern of a 64-bit signed integer.
pub open spec fn i64_bits(v: i64) -> nat {
    if v >= 0 {
        v as nat
    } else {
        (v + 0x1_0000_0000_0000_0000) as nat
    }
}

/// 128 raised to `n`: the weight of the `n`-th seven-bit group.
pub open spec fn pow128(n: nat) -> nat
    decreases n,
{
    if n == 0 {
        1
    } else {
        128 * pow128((n - 1) as nat)
    }
}

/// The byte sequence that encodes the unsigned value `v`, seven bits at a
/// time, least-significant group first.
pub open spec fn varint_encode(v: nat) -> Seq<u8>
    decreases v,
{
    if v < 128 {
        seq![v as u8]
    } else {
        seq![(v % 128 + 128) as u8] + varint_encode(v / 128)
    }
}

/// Reads seven-bit groups until a byte with a clear high bit, with no bound
/// on the group count; yields the accumulated value and the bytes consumed.
pub open spec fn raw_decode(s: Seq<u8>) -> Option<(nat, int)>
    decreases s.len(),
{
    if s.len() == 0 {
        None
    } else if s[0] < 128 {
        Some((s[0] as nat, 1))
    } else {
        match raw_decode(s.skip(1)) {
            Some(p) => Some((((s[0] - 128) + 128 * p.0) as nat, p.1 + 1)),
            None => None,
        }
    }
}

/// Every byte of `s` before index `n` carries the continuation bit.
pub open spec fn all_continuation(s: Seq<u8>, n: int) -> bool {
    forall|i: int| 0 <= i < n ==> s[i] >= 128
}

/// The concrete group weights that the byte-count brackets compare against.
pub proof fn lemma_pow128_values()
    ensures
        pow128(0) == 1,
        pow128(1) == 128,
        pow128(2) == 0x4000,
        pow128(3) == 0x20_0000,
        pow128(4) == 0x1000_0000,
        pow128(5) == 0x8_0000_0000,
        pow128(6) == 0x400_0000_0000,
        pow128(7) == 0x2_0000_0000_0000,
        pow128(8) == 0x100_0000_0000_0000,
        pow128(9) == 0x8000_0000_0000_0000,
        pow128(10) == 0x40_0000_0000_0000_0000,
{
    reveal_with_fuel(pow128, 11);
}

proof fn lemma_pow128_positive(n: nat)
    ensures
        pow128(n) >= 1,
    decreases n,
{
    if n > 0 {
        lemma_pow128_positive((n - 1) as nat);
    }
}

/// A value below `pow128(n)` encodes in at most `n` bytes (and at least one).
pub proof fn lemma_encode_len_bound(v: nat, n: nat)
    requires
        n >= 1,
        v < pow128(n),
    ensures
        1 <= varint_encode(v).len() <= n,
    decreases n,
{
    if v >= 128 {
        lemma_pow128_positive((n - 1) as nat);
        assert(v / 128 < pow128((n - 1) as nat)) by {
            assert(pow128(n) == 128 * pow128((n - 1) as nat));
            assert(v < 128 * pow128((n - 1) as nat));
            assert(v / 128 < pow128((n - 1) as nat)) by (nonlinear_arith)
                requires
                    v < 128 * pow128((n - 1) as nat),
                    pow128((n - 1) as nat) >= 1,
            ;
        }
        lemma_encode_len_bound(v / 128, (n - 1) as nat);
    }
}

/// A value of at least `pow128(n)` needs more than `n` bytes.
pub proof fn lemma_encode_len_lower(v: nat, n: nat)
    requires
        v >= pow128(n),
    ensures
        varint_encode(v).len() > n,
    decreases n,
{
    if n == 0 {
    } else {
        lemma_pow128_positive((n - 1) as nat);
        assert(v >= 128 * pow128((n - 1) as nat));
        assert(v >= 128);
        assert(v / 128 >= pow128((n - 1) as nat)) by (nonlinear_arith)
            requires
                v >= 128 * pow128((n - 1) as nat),
                pow128((n - 1) as nat) >= 1,
        ;
        lemma_encode_len_lower(v / 128, (n - 1) as nat);
    }
}

/// Decoding an encoded value, with anything at all after it, yields the
/// value back and consumes exactly the encoding's bytes.
pub proof fn lemma_raw_decode_encode(v: nat, rest: Seq<u8>)
    ensures
        raw_decode(varint_encode(v) + rest) == Some((v, varint_encode(v).len() as int)),
    decreases v,
{
    let s = varint_encode(v) + rest;
    if v < 128 {
        assert(s[0] == v as u8);
        assert(s[0] < 128);
    } else {
        assert(s[0] == (v % 128 + 128) as u8);
        assert(s[0] >= 128);
        assert(s.skip(1) =~= varint_encode(v / 128) + rest);
        lemma_raw_decode_encode(v / 128, rest);
        assert((s[0] - 128) + 128 * (v / 128) == v % 128 + 128 * (v / 128));
        vstd::arithmetic::div_mod::lemma_fundamental_div_mod(v as int, 128);
    }
}

/// The 32-bit signed value whose bit pattern is `u`.
pub(crate) fn bits_to_i32(u: u32) -> (r: i32)
    ensures
        i32_bits(r) == u as nat,
{
    if u < 0x8000_0000 {
        u as i32
    } else {
        ((u as i64) - 0x1_0000_0000i64) as i32
    }
}

/// A wire-format 32-bit integer, encoded as a varint when written.
#[derive(Clone, Copy, Debug, PartialEq, Eq, Structural)]
pub struct VarInt(pub i32);

impl VarInt {
    /// The encoding of this value's bit pattern.
    pub open spec fn spec_bytes(self) -> Seq<u8> {
        varint_encode(i32_bits(self.0))
    }

    /// The bit pattern, computed executably.
    pub(crate) fn bits(&self) -> (r: u32)
        ensures
            r as nat == i32_bits(self.0),
    {
        if self.0 >= 0 {
            self.0 as u32
        } else {
            ((self.0 as i64) + 0x1_0000_0000i64) as u32
        }
    }

    /// Appends the varint encoding of this value to `buf`.
    pub fn encode(&self, buf: &mut Vec<u8>)
        ensures
            final(buf)@ == old(buf)@ + self.spec_bytes(),
    {
        let mut x: u32 = self.bits();
        loop
            invariant_except_break
                buf@ + varint_encode(x as nat) == old(buf)@ + varint_encode(i32_bits(self.0)),
            ensures
                buf@ == old(buf)@ + varint_encode(i32_bits(self.0)),
            decreases x,
        {
            if x < 0x80 {
                buf.push(x as u8);
                proof {
                    assert(varint_encode(x as nat) =~= seq![x as u8]);
                    assert(buf@ =~= old(buf)@ + varint_encode(i32_bits(self.0)));
                }
                break ;
            } else {
                buf.push((x % 0x80 + 0x80) as u8);
                proof {
                    assert(varint_encode(x as nat) =~= seq![(x as nat % 128 + 128) as u8]
                        + varint_encode(x as nat / 128));
                    assert(buf@ + varint_encode((x / 0x80) as nat) =~= old(buf)@ + varint_encode(
                        i32_bits(self.0),
                    ));
                }
                x = x / 0x80;
            }
        }
    }

    /// How many bytes `encode` would append.
    pub fn written_size(&self) -> (r: usize)
        ensures
            r == self.spec_bytes().len(),
            1 <= r <= 5,
    {
        let x: u32 = self.bits();
        proof {
            lemma_pow128_values();
            lemma_size_brackets(x as nat);
        }
        if x < 0x80 {
            1
        } else if x < 0x4000 {
            2
        } else if x < 0x20_0000 {
            3
        } else if x < 0x1000_0000 {
            4
        } else {
            5
        }
    }

    /// Reads one varint from the front of `bytes`, yielding the value and
    /// the count of bytes consumed. Fails as `Malformed` when five
    /// continuation bytes appear, as `Truncated` when the input ends first.
    pub fn decode(bytes: &[u8]) -> (r: Result<(VarInt, usize), VarIntError>)
        ensures
            match r {
                Ok((v, n)) => {
                    &&& raw_decode(bytes@) matches Some(p) && p.1 == n && i32_bits(v.0) == p.0
                        % 0x1_0000_0000
                    &&& 1 <= n <= 5
                    &&& n <= bytes@.len()
                },
                Err(VarIntError::Malformed) => bytes@.len() >= 5 && all_continuation(bytes@, 5),
                Err(VarIntError::Truncated) => bytes@.len() < 5 && all_continuation(
                    bytes@,
                    bytes@.len() as int,
                ),
            },
    {
        match decode32_groups(bytes, 5) {
            Ok((v, n)) => {
                let low: u64 = v % 0x1_0000_0000;
                let value: i32 = if low < 0x8000_0000 {
                    low as i32
                } else {
                    ((low as i64) - 0x1_0000_0000i64) as i32
                };
                assert(i32_bits(value) == low);
                Ok((VarInt(value), n))
            },
            Err(e) => Err(e),
        }
    }
}

/// Proves the four power-of-128 brackets that `written_size` compares against.
proof fn lemma_size_brackets(v: nat)
    ensures
        v < 128 ==> varint_encode(v).len() == 1,
        128 <= v < 0x4000 ==> varint_encode(v).len() == 2,
        0x4000 <= v < 0x20_0000 ==> varint_encode(v).len() == 3,
        0x20_0000 <= v < 0x1000_0000 ==> varint_encode(v).len() == 4,
        0x1000_0000 <= v < 0x8_0000_0000 ==> varint_encode(v).len() == 5,
{
    lemma_pow128_values();
    if v < 128 {
        lemma_encode_len_bound(v, 1);
    } else if v < 0x4000 {
        lemma_encode_len_bound(v, 2);
        lemma_encode_len_lower(v, 1);
    } else if v < 0x20_0000 {
        lemma_encode_len_bound(v, 3);
        lemma_encode_len_lower(v, 2);
    } else if v < 0x1000_0000 {
        lemma_encode_len_bound(v, 4);
        lemma_encode_len_lower(v, 3);
    } else if v < 0x8_0000_0000 {
        lemma_encode_len_bound(v, 5);
        lemma_encode_len_lower(v, 4);
    }
}

/// Reads up to `fuel` seven-bit groups from the front of `bytes`.
/// The accumulated value stays below `pow128(fuel)`, so it fits a `u64`
/// whenever `fuel <= 9`.
fn decode32_groups(bytes: &[u8], fuel: usize) -> (r: Result<(u64, usize), VarIntError>)
    requires
        1 <= fuel <= 9,
    ensures
        match r {
            Ok((v, n)) => {
                &&& raw_decode(bytes@) == Some((v as nat, n as int))
                &&& 1 <= n <= fuel
                &&& n <= bytes@.len()
                &&& (v as nat) < pow128(n as nat)
            },
            Err(VarIntError::Malformed) => bytes@.len() >= fuel && all_continuation(
                bytes@,
                fuel as int,
            ),
            Err(VarIntError::Truncated) => bytes@.len() < fuel && all_continuation(
                bytes@,
                bytes@.len() as int,
            ),
        },
    decreases fuel,
{
    if bytes.len() == 0 {
        return Err(VarIntError::Truncated);
    }
    let b = bytes[0];
    if b < 0x80 {
        proof {
            lemma_pow128_values();
        }
        return Ok(((b as u64), 1));
    }
    if fuel == 1 {
        return Err(VarIntError::Malformed);
    }
    let tail = &bytes[1..bytes.len()];
    assert(tail@ =~= bytes@.skip(1));
    match decode32_groups(tail, fuel - 1) {
        Ok((v, n)) => {
            proof {
                assert(pow128((n + 1) as nat) == 128 * pow128(n as nat));
                lemma_pow128_positive(n as nat);
                lemma_pow128_values();
                lemma_pow128_monotone(n as nat, 8);
                assert((b - 128) + 128 * (v as nat) < 128 * pow128(n as nat)) by (nonlinear_arith)
                    requires
                        b < 256,
                        b >= 128,
                        (v as nat) < pow128(n as nat),
                        pow128(n as nat) >= 1,
                ;
            }
            let value: u64 = (b - 0x80) as u64 + 128 * v;
            proof {
                assert(bytes@[0] == b);
                assert(raw_decode(bytes@.skip(1)) == Some((v as nat, n as int)));
                assert(raw_decode(bytes@) == Some(
                    (((b - 128) + 128 * (v as nat)) as nat, (n + 1) as int),
                ));
                assert(value as nat == ((b - 128) + 128 * (v as nat)) as nat);
            }
            Ok((value, n + 1))
        },
        Err(e) => {
            proof {
                match e {
                    VarIntError::Malformed => {
                        lemma_continuation_cons(bytes@, fuel as int);
                    },
                    VarIntError::Truncated => {
                        lemma_continuation_cons(bytes@, bytes@.len() as int);
                    },
                }
            }
            Err(e)
        },
    }
}

/// A continuation run extends through a leading continuation byte.
pub proof fn lemma_continuation_cons(s: Seq<u8>, n: int)
    requires
        s.len() > 0,
        n <= s.len(),
        s[0] >= 128,
        all_continuation(s.skip(1), n - 1),
    ensures
        all_continuation(s, n),
{
    assert forall|i: int| 0 <= i < n implies s[i] >= 128 by {
        if i > 0 {
            assert(s.skip(1)[i - 1] == s[i]);
        }
    }
}

pub proof fn lemma_pow128_monotone(a: nat, b: nat)
    requires
        a <= b,
    ensures
        pow128(a) <= pow128(b),
    decreases b,
{
    if a < b {
        lemma_pow128_monotone(a, (b - 1) as nat);
        lemma_pow128_positive((b - 1) as nat);
    }
}

/// What a successful or failed raw decode says about the bytes themselves:
/// a success consumes a continuation run and one terminating byte; a
/// failure means the input ran out inside a continuation run.
pub proof fn lemma_raw_decode_structure(s: Seq<u8>)
    ensures
        raw_decode(s) matches Some(p) ==> 1 <= p.1 <= s.len() && s[p.1 - 1] < 128
            && all_continuation(s, p.1 - 1),
        raw_decode(s) is None ==> all_continuation(s, s.len() as int),
    decreases s.len(),
{
    if s.len() == 0 {
    } else if s[0] < 128 {
    } else {
        lemma_raw_decode_structure(s.skip(1));
        match raw_decode(s.skip(1)) {
            Some(p) => {
                assert(s[p.1 + 1 - 1] == s.skip(1)[p.1 - 1]);
                lemma_continuation_cons(s, p.1);
            },
            None => {
                lemma_continuation_cons(s, s.len() as int);
            },
        }
    }
}

/// Law: every 32-bit value decodes back from its own encoding, whatever
/// follows it, and the encoding takes one to five bytes.
pub proof fn lemma_var_int_round_trip(v: i32, rest: Seq<u8>)
    ensures
        1 <= varint_encode(i32_bits(v)).len() <= 5,
        raw_decode(varint_encode(i32_bits(v)) + rest) == Some(
            (i32_bits(v), varint_encode(i32_bits(v)).len() as int),
        ),
{
    lemma_pow128_values();
    lemma_encode_len_bound(i32_bits(v), 5);
    lemma_raw_decode_encode(i32_bits(v), rest);
}

} // verus!
