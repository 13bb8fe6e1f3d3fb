//! The value type and its codec.

use crate::wire::{
    be_bytes, from_be, lemma_be_bytes_tagged, lemma_from_be_bytes, lemma_from_be_first_bound,
    lemma_pow256_increases, lemma_pow256_values, pow256,
};
use vstd::prelude::*;

verus! {

/// Why a construction or a decode failed.
#[derive(Debug, Clone, Copy, PartialEq, Eq, Structural)]
pub enum VarIntError {
    /// The value does not fit below 2^62.
    OutOfRange,
    /// The input ended before the encoding was complete.
    Truncated,
}

/// An unsigned integer below 2^62, the domain of the codec.
///
/// Every construction path checks the bound, so a value of this type
/// always encodes.
#[derive(Debug, Clone, Copy, PartialEq, Eq, Structural, Hash, PartialOrd, Ord)]
pub struct VarInt {
    value: u64,
}

impl View for VarInt {
    type V = nat;

    closed spec fn view(&self) -> nat {
        self.value as nat
    }
}

/// Number of bytes in the canonical encoding of `v`: the smallest tier
/// whose value bits can hold it.
pub open spec fn spec_size(v: nat) -> nat {
    if v < 64 {
        1
    } else if v < 16384 {
        2
    } else if v < 0x4000_0000 {
        4
    } else {
        8
    }
}

/// The tag written into the two top bits of the first encoded byte.
pub open spec fn spec_tag(v: nat) -> nat {
    if v < 64 {
        0
    } else if v < 16384 {
        1
    } else if v < 0x4000_0000 {
        2
    } else {
        3
    }
}

/// The canonical encoding of `v`: the tag joined into the top bits of a
/// big-endian string of `spec_size(v)` bytes.
pub open spec fn spec_encode(v: nat) -> Seq<u8> {
    be_bytes(v + spec_tag(v) * (64 * pow256((spec_size(v) - 1) as nat)), spec_size(v))
}

/// Total length of an encoding, read off its first byte's two top bits.
pub open spec fn spec_encoded_size(b: u8) -> nat {
    if b < 64 {
        1
    } else if b < 128 {
        2
    } else if b < 192 {
        4
    } else {
        8
    }
}

/// The value encoded at the front of `s`: the first byte with its tag
/// bits cleared, followed by the rest of the tier, read big-endian.
pub open spec fn spec_decode(s: Seq<u8>) -> nat
    recommends
        spec_encoded_size(s[0]) <= s.len(),
{
    from_be(s.update(0, (s[0] % 64) as u8).take(spec_encoded_size(s[0]) as int))
}

/// Writes `v` on exactly `n` bytes, big-endian.
fn be_encode(v: u64, n: usize) -> (out: Vec<u8>)
    requires
        v < pow256(n as nat),
    ensures
        out@ == be_bytes(v as nat, n as nat),
    decreases n,
{
    if n == 0 {
        Vec::new()
    } else {
        proof {
            assert(pow256(n as nat) == 256 * pow256((n - 1) as nat));
            vstd::arithmetic::div_mod::lemma_multiply_divide_lt(
                v as int,
                256,
                pow256((n - 1) as nat) as int,
            );
        }
        let mut out = be_encode(v / 256, n - 1);
        out.push((v % 256) as u8);
        out
    }
}

impl VarInt {
    /// The largest representable value, 2^62 - 1.
    pub const MAX: u64 = 0x3fff_ffff_ffff_ffff;

    /// The largest encoded length in bytes.
    pub const MAX_SIZE: usize = 8;

    #[verifier::type_invariant]
    spec fn inv(self) -> bool {
        self.value < 0x4000_0000_0000_0000
    }

    /// Number of bytes `encode` writes for this value.
    pub fn size(self) -> (n: usize)
        ensures
            self@ < 0x4000_0000_0000_0000,
            n == spec_size(self@),
    {
        proof {
            use_type_invariant(self);
        }
        let x = self.value;
        if x < 64 {
            1
        } else if x < 16384 {
            2
        } else if x < 0x4000_0000 {
            4
        } else {
            // The construction paths exclude values at or above 2^62, so
            // no further tier can be asked for.
            8
        }
    }

    /// The canonical encoding: exactly `self.size()` bytes.
    pub fn encode(&self) -> (out: Vec<u8>)
        ensures
            self@ < 0x4000_0000_0000_0000,
            out@ == spec_encode(self@),
            out@.len() == spec_size(self@),
    {
        proof {
            use_type_invariant(*self);
            lemma_pow256_values();
        }
        let x = self.value;
        let out = if x < 64 {
            be_encode(x, 1)
        } else if x < 16384 {
            be_encode(x + 0x4000, 2)
        } else if x < 0x4000_0000 {
            be_encode(x + 0x8000_0000, 4)
        } else {
            be_encode(x + 0xC000_0000_0000_0000, 8)
        };
        proof {
            crate::wire::lemma_be_bytes_len(
                self@ + spec_tag(self@) * (64 * pow256((spec_size(self@) - 1) as nat)),
                spec_size(self@),
            );
        }
        out
    }

    /// Total length of an encoding, from its first byte alone.
    pub fn encoded_size(first: u8) -> (n: usize)
        ensures
            n == spec_encoded_size(first),
    {
        if first < 64 {
            1
        } else if first < 128 {
            2
        } else if first < 192 {
            4
        } else {
            8
        }
    }

    /// Decodes one value from the front of `bytes`, returning it with the
    /// number of bytes read.  Fails exactly when `bytes` holds fewer bytes
    /// than the first byte's tag demands; a decoded value is never built
    /// from an incomplete encoding.
    pub fn decode(bytes: &[u8]) -> (r: Result<(VarInt, usize), VarIntError>)
        ensures
            match r {
                Ok((v, n)) => {
                    &&& bytes@.len() >= 1
                    &&& n == spec_encoded_size(bytes@[0])
                    &&& n <= bytes@.len()
                    &&& v@ == spec_decode(bytes@)
                    &&& v@ < 0x4000_0000_0000_0000
                },
                Err(e) => {
                    &&& e == VarIntError::Truncated
                    &&& bytes@.len() < spec_encoded_size(bytes@[0])
                },
            },
    {
        if bytes.len() == 0 {
            return Err(VarIntError::Truncated);
        }
        let first = bytes[0];
        let n = Self::encoded_size(first);
        if bytes.len() < n {
            return Err(VarIntError::Truncated);
        }
        let masked: u8 = first % 64;
        let ghost mseq = bytes@.update(0, masked);
        let mut raw: u64 = masked as u64;
        let mut i: usize = 1;
        proof {
            lemma_pow256_values();
            assert(mseq.take(1).drop_last() =~= Seq::<u8>::empty());
            assert(from_be(Seq::<u8>::empty()) == 0);
            assert(raw == from_be(mseq.take(1)));
        }
        while i < n
            invariant
                1 <= i <= n,
                n == spec_encoded_size(first),
                n <= bytes@.len(),
                first == bytes@[0],
                mseq == bytes@.update(0, masked),
                masked == first % 64,
                raw == from_be(mseq.take(i as int)),
                raw < pow256(i as nat),
            decreases n - i,
        {
            proof {
                lemma_pow256_values();
                lemma_pow256_increases(i as nat, 7);
                assert(pow256((i + 1) as nat) == 256 * pow256(i as nat));
            }
            raw = raw * 256 + (bytes[i] as u64);
            proof {
                assert(mseq.take(i + 1).drop_last() =~= mseq.take(i as int));
                assert(mseq.take(i + 1).last() == bytes@[i as int]);
            }
            i = i + 1;
        }
        proof {
            lemma_pow256_values();
            let pre = mseq.take(n as int);
            let p = pow256((n - 1) as nat) as int;
            lemma_from_be_first_bound(pre);
            assert(pre[0] == masked);
            lemma_pow256_increases((n - 1) as nat, 7);
            vstd::arithmetic::mul::lemma_mul_inequality(masked as int + 1, 64, p);
            vstd::arithmetic::mul::lemma_mul_inequality(p, pow256(7) as int, 64);
            vstd::arithmetic::mul::lemma_mul_is_commutative(p, 64);
            vstd::arithmetic::mul::lemma_mul_is_commutative(pow256(7) as int, 64);
            assert(raw < 64 * pow256(7));
            assert(raw < 0x4000_0000_0000_0000);
        }
        // The tag bits of the first byte were cleared, so the value fits
        // below 2^62; the range check guards malformed inputs all the same.
        match Self::try_from_u64(raw) {
            Ok(v) => Ok((v, n)),
            Err(e) => Err(e),
        }
    }

    /// Unconditional construction from a byte.
    pub fn from_u8(x: u8) -> (r: VarInt)
        ensures
            r@ == x,
    {
        VarInt { value: x as u64 }
    }

    /// Unconditional construction: every 16-bit value fits in 62 bits.
    pub fn from_u16(x: u16) -> (r: VarInt)
        ensures
            r@ == x,
    {
        VarInt { value: x as u64 }
    }

    /// Unconditional construction: every 32-bit value fits in 62 bits.
    pub fn from_u32(x: u32) -> (r: VarInt)
        ensures
            r@ == x,
    {
        VarInt { value: x as u64 }
    }

    /// Validated construction: succeeds exactly when `x` lies below 2^62.
    pub fn try_from_u64(x: u64) -> (r: Result<VarInt, VarIntError>)
        ensures
            match r {
                Ok(v) => x < 0x4000_0000_0000_0000 && v@ == x,
                Err(e) => x >= 0x4000_0000_0000_0000 && e == VarIntError::OutOfRange,
            },
    {
        if x < 0x4000_0000_0000_0000 {
            Ok(VarInt { value: x })
        } else {
            Err(VarIntError::OutOfRange)
        }
    }

    /// Validated construction from a platform-sized value.
    pub fn try_from_usize(x: usize) -> (r: Result<VarInt, VarIntError>)
        ensures
            match r {
                Ok(v) => x < 0x4000_0000_0000_0000 && v@ == x,
                Err(e) => x >= 0x4000_0000_0000_0000 && e == VarIntError::OutOfRange,
            },
    {
        Self::try_from_u64(x as u64)
    }

    /// The underlying value, losslessly; it always lies below 2^62.
    pub fn to_u64(self) -> (r: u64)
        ensures
            r == self@,
            r < 0x4000_0000_0000_0000,
    {
        proof {
            use_type_invariant(self);
        }
        self.value
    }
}

/// The shape an encoding always takes: its length is the tier size, its
/// first byte places it in that tier, and clearing the first byte's tag
/// bits leaves exactly the big-endian bytes of the value.
proof fn lemma_encode_shape(v: nat)
    requires
        v < 0x4000_0000_0000_0000,
    ensures
        ({
            let s = spec_encode(v);
            &&& s.len() == spec_size(v)
            &&& spec_encoded_size(s[0]) == spec_size(v)
            &&& s.update(0, (s[0] % 64) as u8) == be_bytes(v, spec_size(v))
        }),
{
    lemma_pow256_values();
    let n = spec_size(v);
    let t = spec_tag(v);
    let p = pow256((n - 1) as nat);
    assert(v < 64 * p);
    lemma_be_bytes_tagged(v, t, n);
    let s = spec_encode(v);
    assert(s[0] == t * 64 + v / p);
    assert((s[0] % 64) as u8 == (v / p) as u8);
}

/// Round-trip law: decoding the encoding of any valid value yields the
/// value back, and consumes exactly its size.
pub proof fn lemma_round_trip(v: nat)
    requires
        v < 0x4000_0000_0000_0000,
    ensures
        spec_encode(v).len() == spec_size(v),
        spec_decode(spec_encode(v)) == v,
{
    lemma_encode_shape(v);
    lemma_pow256_values();
    let n = spec_size(v);
    let s = spec_encode(v);
    let m = s.update(0, (s[0] % 64) as u8);
    assert(m.take(n as int) =~= m);
    assert(v < pow256(n));
    lemma_from_be_bytes(v, n);
}

/// Tag law: the first byte of an encoding announces the total length,
/// before any further byte is read.
pub proof fn lemma_tag_extraction(v: nat)
    requires
        v < 0x4000_0000_0000_0000,
    ensures
        spec_encode(v).len() == spec_size(v),
        spec_encoded_size(spec_encode(v)[0]) == spec_size(v),
{
    lemma_encode_shape(v);
}

/// Size law: `spec_size` picks the unique tier whose half-open value
/// range holds the value, and the encoding has exactly that many bytes.
pub proof fn lemma_canonical_size(v: nat)
    requires
        v < 0x4000_0000_0000_0000,
    ensures
        spec_size(v) == 1 <==> v < 64,
        spec_size(v) == 2 <==> 64 <= v < 16384,
        spec_size(v) == 4 <==> 16384 <= v < 0x4000_0000,
        spec_size(v) == 8 <==> 0x4000_0000 <= v,
        spec_encode(v).len() == spec_size(v),
{
    lemma_encode_shape(v);
}

} // verus!
