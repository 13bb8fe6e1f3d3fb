//! Big-endian byte strings and the values they denote.
//!
//! The encoding is defined arithmetically: a byte string of length `n`
//! denotes a number below `pow256(n)`, and `be_bytes` writes a number on
//! exactly `n` bytes, most significant first.

use vstd::arithmetic::div_mod::{
    lemma_div_basics, lemma_div_denominator, lemma_fundamental_div_mod,
    lemma_fundamental_div_mod_converse_div, lemma_fundamental_div_mod_converse_mod,
    lemma_mod_multiples_vanish, lemma_multiply_divide_lt, lemma_small_mod,
};
use vstd::arithmetic::mul::{lemma_mul_is_associative, lemma_mul_is_commutative};
use vstd::prelude::*;

verus! {

/// 256 raised to the power `n`: one more than the largest value a byte
/// string of length `n` can denote.
pub open spec fn pow256(n: nat) -> nat
    decreases n,
{
    if n == 0 {
        1
    } else {
        256 * pow256((n - 1) as nat)
    }
}

/// The big-endian byte string of length `n` denoting `v`.
pub open spec fn be_bytes(v: nat, n: nat) -> Seq<u8>
    decreases n,
{
    if n == 0 {
        Seq::empty()
    } else {
        be_bytes(v / 256, (n - 1) as nat).push((v % 256) as u8)
    }
}

/// The value a big-endian byte string denotes.
pub open spec fn from_be(s: Seq<u8>) -> nat
    decreases s.len(),
{
    if s.len() == 0 {
        0
    } else {
        from_be(s.drop_last()) * 256 + (s.last() as nat)
    }
}

pub proof fn lemma_pow256_pos(n: nat)
    ensures
        pow256(n) >= 1,
    decreases n,
{
    if n > 0 {
        lemma_pow256_pos((n - 1) as nat);
    }
}

pub proof fn lemma_pow256_increases(a: nat, b: nat)
    requires
        a <= b,
    ensures
        pow256(a) <= pow256(b),
    decreases b,
{
    if a < b {
        lemma_pow256_increases(a, (b - 1) as nat);
        lemma_pow256_pos((b - 1) as nat);
    }
}

/// The concrete powers the codec works with.
pub proof fn lemma_pow256_values()
    ensures
        pow256(0) == 1,
        pow256(1) == 0x100,
        pow256(2) == 0x1_0000,
        pow256(3) == 0x100_0000,
        pow256(4) == 0x1_0000_0000,
        pow256(5) == 0x100_0000_0000,
        pow256(6) == 0x1_0000_0000_0000,
        pow256(7) == 0x100_0000_0000_0000,
        pow256(8) == 0x1_0000_0000_0000_0000,
{
    reveal_with_fuel(pow256, 9);
}

pub proof fn lemma_be_bytes_len(v: nat, n: nat)
    ensures
        be_bytes(v, n).len() == n,
    decreases n,
{
    if n > 0 {
        lemma_be_bytes_len(v / 256, (n - 1) as nat);
    }
}

/// Writing a value on `n` bytes and reading the bytes back is the identity.
pub proof fn lemma_from_be_bytes(v: nat, n: nat)
    requires
        v < pow256(n),
    ensures
        from_be(be_bytes(v, n)) == v,
    decreases n,
{
    if n > 0 {
        let tail = be_bytes(v / 256, (n - 1) as nat);
        lemma_be_bytes_len(v / 256, (n - 1) as nat);
        assert(be_bytes(v, n).drop_last() =~= tail);
        lemma_multiply_divide_lt(v as int, 256, pow256((n - 1) as nat) as int);
        lemma_from_be_bytes(v / 256, (n - 1) as nat);
        lemma_fundamental_div_mod(v as int, 256);
    }
}

/// A byte string of length `n` denotes a value below `pow256(n)`.
pub proof fn lemma_from_be_bound(s: Seq<u8>)
    ensures
        from_be(s) < pow256(s.len()),
    decreases s.len(),
{
    if s.len() > 0 {
        lemma_from_be_bound(s.drop_last());
    }
}

/// The leading byte bounds the denoted value: the remaining bytes can
/// contribute less than one step of the leading position.
pub proof fn lemma_from_be_first_bound(s: Seq<u8>)
    requires
        s.len() >= 1,
    ensures
        from_be(s) < (s[0] as nat + 1) * pow256((s.len() - 1) as nat),
    decreases s.len(),
{
    let len = s.len();
    if len == 1 {
        assert(s.drop_last().len() == 0);
        assert(from_be(s.drop_last()) == 0);
        assert(from_be(s) == s.last() as nat);
        assert(pow256(0) == 1);
    } else {
        let t = s.drop_last();
        assert(t[0] == s[0]);
        lemma_from_be_first_bound(t);
        let a = s[0] as int + 1;
        let p = pow256((len - 2) as nat) as int;
        assert(pow256((len - 1) as nat) == 256 * pow256((len - 2) as nat));
        assert(from_be(s) == from_be(t) * 256 + (s.last() as nat));
        assert(from_be(t) <= a * p - 1);
        assert(from_be(t) * 256 <= (a * p - 1) * 256);
        assert(from_be(s) < (a * p) * 256);
        lemma_mul_is_associative(a, p, 256);
        assert((a * p) * 256 == a * (p * 256));
        lemma_mul_is_commutative(p, 256);
        assert(p * 256 == pow256((len - 1) as nat));
        assert(from_be(s) < a * pow256((len - 1) as nat) as int);
    }
}

/// Writing `v + t * 64 * pow256(n - 1)` on `n` bytes, for `v` small enough
/// that its leading byte stays below 64, yields the bytes of `v` with
/// `t * 64` added into the first byte alone: the tag occupies the two top
/// bits of the first byte and nothing else.
pub proof fn lemma_be_bytes_tagged(v: nat, t: nat, n: nat)
    requires
        1 <= n,
        t < 4,
        v < 64 * pow256((n - 1) as nat),
    ensures
        ({
            let s = be_bytes(v + t * (64 * pow256((n - 1) as nat)), n);
            &&& s.len() == n
            &&& v / pow256((n - 1) as nat) < 64
            &&& s[0] == t * 64 + v / pow256((n - 1) as nat)
            &&& (s[0] as nat) % 64 == v / pow256((n - 1) as nat)
            &&& s.update(0, (v / pow256((n - 1) as nat)) as u8) == be_bytes(v, n)
        }),
    decreases n,
{
    let p1 = pow256((n - 1) as nat);
    let x = v + t * (64 * p1);
    let s = be_bytes(x, n);
    lemma_be_bytes_len(x, n);
    lemma_multiply_divide_lt(v as int, p1 as int, 64);
    lemma_pow256_pos((n - 1) as nat);
    if n == 1 {
        assert(p1 == 1);
        lemma_div_basics(v as int);
        assert(v / p1 == v);
        assert(x < 256);
        lemma_small_mod(x, 256);
        assert(s =~= seq![x as u8]);
        assert(s[0] == t * 64 + v);
        lemma_mod_multiples_vanish(t as int, v as int, 64);
        lemma_small_mod(v, 64);
        assert(be_bytes(v, 1) =~= seq![v as u8]);
        assert(s.update(0, v as u8) =~= be_bytes(v, 1));
    } else {
        let p2 = pow256((n - 2) as nat);
        assert(p1 == 256 * p2);
        lemma_pow256_pos((n - 2) as nat);
        // x == (v / 256 + t * (64 * p2)) * 256 + v % 256, so division and
        // remainder by 256 pull the tag through to the shorter string.
        lemma_fundamental_div_mod(v as int, 256);
        assert(t * (64 * p1) == (t * (64 * p2)) * 256) by {
            lemma_mul_is_associative(t as int, 64, p2 as int);
            lemma_mul_is_associative(t as int * 64, p2 as int, 256);
            lemma_mul_is_associative(t as int, 64, p1 as int);
            lemma_mul_is_commutative(p2 as int, 256);
            lemma_mul_is_associative(t as int * 64, 256, p2 as int);
            lemma_mul_is_commutative(t as int * 64 * 256, p2 as int);
        }
        let q = v / 256 + t * (64 * p2);
        assert(x == q * 256 + v % 256) by {
            vstd::arithmetic::mul::lemma_mul_is_distributive_add_other_way(
                256,
                (v / 256) as int,
                t * (64 * p2) as int,
            );
        }
        lemma_fundamental_div_mod_converse_div(x as int, 256, q as int, (v % 256) as int);
        lemma_fundamental_div_mod_converse_mod(x as int, 256, q as int, (v % 256) as int);
        assert(x / 256 == q);
        assert(x % 256 == v % 256);
        // The leading `v / 256` stays below `64 * p2`.
        assert(v < 64 * p1);
        assert(64 * p1 == (64 * p2) * 256) by {
            lemma_mul_is_associative(64, p2 as int, 256);
            lemma_mul_is_commutative(p2 as int, 256);
            lemma_mul_is_associative(64, 256, p2 as int);
        }
        lemma_multiply_divide_lt(v as int, 256, (64 * p2) as int);
        lemma_mul_is_commutative(256, (64 * p2) as int);
        lemma_be_bytes_tagged(v / 256, t, (n - 1) as nat);
        let s1 = be_bytes((x / 256) as nat, (n - 1) as nat);
        assert(s =~= s1.push((v % 256) as u8));
        // The leading byte of the shorter string is the leading byte here.
        lemma_div_denominator(v as int, 256, p2 as int);
        assert((v / 256) / p2 == v / p1);
        assert(s[0] == s1[0]);
        assert(s.update(0, (v / p1) as u8) =~= s1.update(0, ((v / 256) / p2) as u8).push(
            (v % 256) as u8,
        ));
        lemma_be_bytes_len(v / 256, (n - 1) as nat);
        assert(be_bytes(v, n) =~= be_bytes(v / 256, (n - 1) as nat).push((v % 256) as u8));
    }
}

} // verus!
