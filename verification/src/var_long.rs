//! Variable-length encoding of 64-bit signed integers: the same seven-bit
//! group scheme as the 32-bit codec, scaled to at most ten bytes.

use vstd::prelude::*;

use crate::var_int::{
    all_continuation, i64_bits, lemma_encode_len_bound, lemma_encode_len_lower,
    lemma_continuation_cons, lemma_pow128_monotone, lemma_pow128_values, lemma_raw_decode_encode,
    pow128, raw_decode, varint_encode, VarIntError,
};

verus! {

/// Most bytes a 64-bit varint may occupy on the wire.
pub const VAR_LONG_MAX_BYTES: usize = 10;

/// A wire-format 64-bit integer, encoded as a varint when written.
#[derive(Clone, Copy, Debug, PartialEq, Eq, Structural)]
pub struct VarLong(pub i64);

impl VarLong {
    /// The encoding of this value's bit pattern.
    pub open spec fn spec_bytes(self) -> Seq<u8> {
        varint_encode(i64_bits(self.0))
    }

    /// The bit pattern, computed executably.
    fn bits(&self) -> (r: u64)
        ensures
            r as nat == i64_bits(self.0),
    {
        if self.0 >= 0 {
            self.0 as u64
        } else {
            (((self.0 as i128) + 0x1_0000_0000_0000_0000i128) as u64)
        }
    }

    /// Appends the varint encoding of this value to `buf`.
    pub fn encode(&self, buf: &mut Vec<u8>)
        ensures
            final(buf)@ == old(buf)@ + self.spec_bytes(),
    {
        let mut x: u64 = self.bits();
        loop
            invariant_except_break
                buf@ + varint_encode(x as nat) == old(buf)@ + varint_encode(i64_bits(self.0)),
            ensures
                buf@ == old(buf)@ + varint_encode(i64_bits(self.0)),
            decreases x,
        {
            if x < 0x80 {
                buf.push(x as u8);
                proof {
                    assert(varint_encode(x as nat) =~= seq![x as u8]);
                    assert(buf@ =~= old(buf)@ + varint_encode(i64_bits(self.0)));
                }
                break ;
            } else {
                buf.push((x % 0x80 + 0x80) as u8);
                proof {
                    assert(varint_encode(x as nat) =~= seq![(x as nat % 128 + 128) as u8]
                        + varint_encode(x as nat / 128));
                    assert(buf@ + varint_encode((x / 0x80) as nat) =~= old(buf)@ + varint_encode(
                        i64_bits(self.0),
                    ));
                }
                x = x / 0x80;
            }
        }
    }

    /// How many bytes `encode` would append.
    pub fn written_size(&self) -> (r: usize)
        ensures
            r == self.spec_bytes().len(),
            1 <= r <= 10,
    {
        let x: u64 = self.bits();
        proof {
            lemma_pow128_values();
            lemma_long_size_brackets(x as nat);
        }
        if x < 0x80 {
            1
        } else if x < 0x4000 {
            2
        } else if x < 0x20_0000 {
            3
        } else if x < 0x1000_0000 {
            4
        } else if x < 0x8_0000_0000 {
            5
        } else if x < 0x400_0000_0000 {
            6
        } else if x < 0x2_0000_0000_0000 {
            7
        } else if x < 0x100_0000_0000_0000 {
            8
        } else if x < 0x8000_0000_0000_0000 {
            9
        } else {
            10
        }
    }

    /// Reads one 64-bit varint from the front of `bytes`. Fails as
    /// `Malformed` when ten continuation bytes appear, as `Truncated` when
    /// the input ends first.
    pub fn decode(bytes: &[u8]) -> (r: Result<(VarLong, usize), VarIntError>)
        ensures
            match r {
                Ok((v, n)) => {
                    &&& raw_decode(bytes@) matches Some(p) && p.1 == n && i64_bits(v.0) == p.0
                        % 0x1_0000_0000_0000_0000
                    &&& 1 <= n <= 10
                    &&& n <= bytes@.len()
                },
                Err(VarIntError::Malformed) => bytes@.len() >= 10 && all_continuation(bytes@, 10),
                Err(VarIntError::Truncated) => bytes@.len() < 10 && all_continuation(
                    bytes@,
                    bytes@.len() as int,
                ),
            },
    {
        match decode64_groups(bytes, 10) {
            Ok((v, n)) => {
                let low: u128 = v % 0x1_0000_0000_0000_0000;
                let value: i64 = if low < 0x8000_0000_0000_0000 {
                    low as i64
                } else {
                    (((low as i128) - 0x1_0000_0000_0000_0000i128) as i64)
                };
                assert(i64_bits(value) == low);
                Ok((VarLong(value), n))
            },
            Err(e) => Err(e),
        }
    }
}

/// Proves the nine power-of-128 brackets that `written_size` compares against.
proof fn lemma_long_size_brackets(v: nat)
    requires
        v < 0x1_0000_0000_0000_0000,
    ensures
        v < 128 ==> varint_encode(v).len() == 1,
        128 <= v < 0x4000 ==> varint_encode(v).len() == 2,
        0x4000 <= v < 0x20_0000 ==> varint_encode(v).len() == 3,
        0x20_0000 <= v < 0x1000_0000 ==> varint_encode(v).len() == 4,
        0x1000_0000 <= v < 0x8_0000_0000 ==> varint_encode(v).len() == 5,
        0x8_0000_0000 <= v < 0x400_0000_0000 ==> varint_encode(v).len() == 6,
        0x400_0000_0000 <= v < 0x2_0000_0000_0000 ==> varint_encode(v).len() == 7,
        0x2_0000_0000_0000 <= v < 0x100_0000_0000_0000 ==> varint_encode(v).len() == 8,
        0x100_0000_0000_0000 <= v < 0x8000_0000_0000_0000 ==> varint_encode(v).len() == 9,
        0x8000_0000_0000_0000 <= v ==> varint_encode(v).len() == 10,
{
    lemma_pow128_values();
    if v < 128 {
        lemma_encode_len_bound(v, 1);
    } else if v < 0x4000 {
        lemma_encode_len_bound(v, 2);
        lemma_encode_len_lower(v, 1);
    } else if v < 0x20_0000 {
        lemma_encode_len_bound(v, 3);
        lemma_encode_len_lower(v, 2);
    } else if v < 0x1000_0000 {
        lemma_encode_len_bound(v, 4);
        lemma_encode_len_lower(v, 3);
    } else if v < 0x8_0000_0000 {
        lemma_encode_len_bound(v, 5);
        lemma_encode_len_lower(v, 4);
    } else if v < 0x400_0000_0000 {
        lemma_encode_len_bound(v, 6);
        lemma_encode_len_lower(v, 5);
    } else if v < 0x2_0000_0000_0000 {
        lemma_encode_len_bound(v, 7);
        lemma_encode_len_lower(v, 6);
    } else if v < 0x100_0000_0000_0000 {
        lemma_encode_len_bound(v, 8);
        lemma_encode_len_lower(v, 7);
    } else if v < 0x8000_0000_0000_0000 {
        lemma_encode_len_bound(v, 9);
        lemma_encode_len_lower(v, 8);
    } else {
        lemma_encode_len_bound(v, 10);
        lemma_encode_len_lower(v, 9);
    }
}

/// Reads up to `fuel` seven-bit groups from the front of `bytes`; the
/// accumulated value stays below `pow128(fuel)`, well within a `u128`.
fn decode64_groups(bytes: &[u8], fuel: usize) -> (r: Result<(u128, usize), VarIntError>)
    requires
        1 <= fuel <= 10,
    ensures
        match r {
            Ok((v, n)) => {
                &&& raw_decode(bytes@) == Some((v as nat, n as int))
                &&& 1 <= n <= fuel
                &&& n <= bytes@.len()
                &&& (v as nat) < pow128(n as nat)
            },
            Err(VarIntError::Malformed) => bytes@.len() >= fuel && all_continuation(
                bytes@,
                fuel as int,
            ),
            Err(VarIntError::Truncated) => bytes@.len() < fuel && all_continuation(
                bytes@,
                bytes@.len() as int,
            ),
        },
    decreases fuel,
{
    if bytes.len() == 0 {
        return Err(VarIntError::Truncated);
    }
    let b = bytes[0];
    if b < 0x80 {
        proof {
            lemma_pow128_values();
        }
        return Ok(((b as u128), 1));
    }
    if fuel == 1 {
        return Err(VarIntError::Malformed);
    }
    let tail = &bytes[1..bytes.len()];
    assert(tail@ =~= bytes@.skip(1));
    match decode64_groups(tail, fuel - 1) {
        Ok((v, n)) => {
            proof {
                assert(pow128((n + 1) as nat) == 128 * pow128(n as nat));
                lemma_pow128_values();
                lemma_pow128_monotone(n as nat, 9);
                assert((b - 128) + 128 * (v as nat) < 128 * pow128(n as nat)) by (nonlinear_arith)
                    requires
                        b < 256,
                        b >= 128,
                        (v as nat) < pow128(n as nat),
                        pow128(n as nat) >= 1,
                ;
            }
            let value: u128 = (b - 0x80) as u128 + 128 * v;
            proof {
                assert(bytes@[0] == b);
                assert(raw_decode(bytes@.skip(1)) == Some((v as nat, n as int)));
                assert(raw_decode(bytes@) == Some(
                    (((b - 128) + 128 * (v as nat)) as nat, (n + 1) as int),
                ));
                assert(value as nat == ((b - 128) + 128 * (v as nat)) as nat);
            }
            Ok((value, n + 1))
        },
        Err(e) => {
            proof {
                match e {
                    VarIntError::Malformed => {
                        lemma_continuation_cons(bytes@, fuel as int);
                    },
                    VarIntError::Truncated => {
                        lemma_continuation_cons(bytes@, bytes@.len() as int);
                    },
                }
            }
            Err(e)
        },
    }
}

/// Law: every 64-bit value decodes back from its own encoding, whatever
/// follows it, and the encoding takes one to ten bytes.
pub proof fn lemma_var_long_round_trip(v: i64, rest: Seq<u8>)
    ensures
        1 <= varint_encode(i64_bits(v)).len() <= 10,
        raw_decode(varint_encode(i64_bits(v)) + rest) == Some(
            (i64_bits(v), varint_encode(i64_bits(v)).len() as int),
        ),
{
    lemma_pow128_values();
    lemma_encode_len_bound(i64_bits(v), 10);
    lemma_raw_decode_encode(i64_bits(v), rest);
}

} // verus!
