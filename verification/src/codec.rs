//! Encoding of plaintexts modulo `t = 2^b` into the most significant bits of
//! a 64-bit word, and the rounding decoder that removes small noise.
use vstd::arithmetic::div_mod::*;
use vstd::arithmetic::power2::*;
use vstd::prelude::*;

use crate::poly::{lemma_wrap_small, lemma_wrapping_add, lemma_wrapping_mul, wrap, word_modulus};

verus! {

/// A codec for plaintexts modulo `t = 2^bits`: `m` is encoded as `m * delta`
/// with `delta = 2^(64 - bits)`, and a word is decoded by rounding it to the
/// nearest multiple of `delta`.
pub struct Codec {
    pub pt_modulus: u64,
    pub pt_bits: usize,
}

/// The scaling factor `2^(64 - bits)` of a codec with `bits` plaintext bits.
pub open spec fn delta_of(bits: nat) -> nat {
    pow2((64 - bits) as nat)
}

/// `m * delta` modulo `2^64`.
pub open spec fn encode_spec(bits: nat, m: u64) -> u64 {
    wrap(m * delta_of(bits))
}

/// The multiple of `delta` closest to `x` (rounding halves up, modulo `2^64`),
/// divided by `delta`: a value in `[0, 2^bits)`.
pub open spec fn decode_spec(bits: nat, x: u64) -> u64 {
    (wrap(x + delta_of(bits) / 2) as nat / delta_of(bits)) as u64
}

/// Coefficient-wise encoding.
pub open spec fn poly_encode_spec(bits: nat, p: Seq<u64>) -> Seq<u64> {
    Seq::new(p.len(), |i: int| encode_spec(bits, p[i]))
}

/// Coefficient-wise decoding.
pub open spec fn poly_decode_spec(bits: nat, p: Seq<u64>) -> Seq<u64> {
    Seq::new(p.len(), |i: int| decode_spec(bits, p[i]))
}

/// Ternary coefficients `0, 1, -1` are encoded with the codec of modulus 4.
pub open spec fn ternary_encode_spec(x: u64) -> u64 {
    encode_spec(2, x)
}

/// Decoding with the codec of modulus 4, where 3 stands for `-1`.
pub open spec fn ternary_decode_spec(x: u64) -> u64 {
    let d = decode_spec(2, x);
    if d == 3 {
        u64::MAX
    } else {
        d
    }
}

impl Codec {
    /// Well-formed: `pt_modulus == 2^pt_bits` with `1 <= pt_bits <= 62`.
    pub open spec fn wf(&self) -> bool {
        &&& 1 <= self.pt_bits <= 62
        &&& self.pt_modulus == pow2(self.pt_bits as nat)
    }

    /// A codec for plaintexts modulo `t`, a power of two between `2` and `2^62`.
    pub fn new(t: u64) -> (r: Self)
        requires
            exists|b: nat| 1 <= b <= 62 && t == pow2(b),
        ensures
            r.wf(),
            r.pt_modulus == t,
            r.pt_bits == crate::poly::floor_log2(t as nat),
    {
        proof {
            vstd::arithmetic::power2::lemma2_to64();
            crate::poly::lemma_floor_log2_small(t as nat, 64);
        }
        let mut bits: usize = 0;
        let mut v: u64 = t;
        while v > 1
            invariant
                crate::poly::floor_log2(t as nat) == bits + crate::poly::floor_log2(v as nat),
                crate::poly::floor_log2(t as nat) < 64,
            decreases v,
        {
            v = v / 2;
            bits = bits + 1;
        }
        proof {
            let b = choose|b: nat| 1 <= b <= 62 && t == pow2(b);
            crate::poly::lemma_floor_log2_pow2(b);
            lemma_pow2_strictly_increases(b, 64);
            lemma2_to64();
            lemma2_to64_rest();
        }
        Codec { pt_modulus: t, pt_bits: bits }
    }

    /// The plaintext modulus `t`.
    pub fn pt_modulus(&self) -> (r: u64)
        ensures
            r == self.pt_modulus,
    {
        self.pt_modulus
    }

    /// The number of bits `log2(t)` of a plaintext.
    pub fn pt_modulus_bits(&self) -> (r: usize)
        ensures
            r == self.pt_bits,
    {
        self.pt_bits
    }

    /// The scaling factor `delta = 2^(64 - log2(t))`.
    pub fn delta(&self) -> (r: u64)
        requires
            self.wf(),
        ensures
            r == delta_of(self.pt_bits as nat),
    {
        proof {
            lemma_delta_bounds(self.pt_bits as nat);
        }
        1u64 << ((64 - self.pt_bits) as u64)
    }

    /// Encode one plaintext in place.
    pub fn encode(&self, x: &mut u64)
        requires
            self.wf(),
        ensures
            *final(x) == encode_spec(self.pt_bits as nat, *old(x)),
    {
        let d = self.delta();
        let v = (*x).wrapping_mul(d);
        proof {
            lemma_wrapping_mul(*x, d);
        }
        *x = v;
    }

    /// Decode one word in place, rounding to the closest multiple of delta.
    pub fn decode(&self, x: &mut u64)
        requires
            self.wf(),
        ensures
            *final(x) == decode_spec(self.pt_bits as nat, *old(x)),
            *final(x) < self.pt_modulus,
    {
        let d = self.delta();
        let half = d / 2;
        let v = (*x).wrapping_add(half);
        proof {
            lemma_wrapping_add(*x, half);
            lemma_delta_bounds(self.pt_bits as nat);
            lemma_decode_bound(self.pt_bits as nat, v);
        }
        *x = v / d;
    }

    /// Encode every coefficient of a polynomial in place.
    pub fn poly_encode(&self, p: &mut Vec<u64>)
        requires
            self.wf(),
        ensures
            final(p)@ == poly_encode_spec(self.pt_bits as nat, old(p)@),
    {
        let n = p.len();
        let mut i: usize = 0;
        while i < n
            invariant
                self.wf(),
                n == p.len(),
                i <= n,
                old(p).len() == n,
                forall|j: int| 0 <= j < i ==> p@[j] == encode_spec(self.pt_bits as nat, old(p)@[j]),
                forall|j: int| i <= j < n ==> p@[j] == old(p)@[j],
            decreases n - i,
        {
            let mut v = p[i];
            self.encode(&mut v);
            p.set(i, v);
            i += 1;
        }
        assert(p@ =~= poly_encode_spec(self.pt_bits as nat, old(p)@));
    }

    /// Decode every coefficient of a polynomial in place.
    pub fn poly_decode(&self, p: &mut Vec<u64>)
        requires
            self.wf(),
        ensures
            final(p)@ == poly_decode_spec(self.pt_bits as nat, old(p)@),
    {
        let n = p.len();
        let mut i: usize = 0;
        while i < n
            invariant
                self.wf(),
                n == p.len(),
                i <= n,
                old(p).len() == n,
                forall|j: int| 0 <= j < i ==> p@[j] == decode_spec(self.pt_bits as nat, old(p)@[j]),
                forall|j: int| i <= j < n ==> p@[j] == old(p)@[j],
            decreases n - i,
        {
            let mut v = p[i];
            self.decode(&mut v);
            p.set(i, v);
            i += 1;
        }
        assert(p@ =~= poly_decode_spec(self.pt_bits as nat, old(p)@));
    }

    /// Encode ternary coefficients (`0`, `1` and `-1 = u64::MAX`) in place.
    pub fn poly_ternary_encode(p: &mut Vec<u64>)
        ensures
            final(p)@ == Seq::new(old(p)@.len(), |i: int| ternary_encode_spec(old(p)@[i])),
    {
        proof {
            lemma2_to64();
            crate::poly::lemma_floor_log2_pow2(2);
        }
        let four = Codec::new(4);
        four.poly_encode(p);
        assert(final(p)@ =~= Seq::new(old(p)@.len(), |i: int| ternary_encode_spec(old(p)@[i])));
    }

    /// Decode ternary coefficients in place; `-1` is decoded as `u64::MAX`.
    pub fn poly_ternary_decode(p: &mut Vec<u64>)
        ensures
            final(p)@ == Seq::new(old(p)@.len(), |i: int| ternary_decode_spec(old(p)@[i])),
    {
        proof {
            lemma2_to64();
            crate::poly::lemma_floor_log2_pow2(2);
        }
        let four = Codec::new(4);
        four.poly_decode(p);
        let n = p.len();
        let ghost decoded = p@;
        let mut i: usize = 0;
        while i < n
            invariant
                n == p.len(),
                i <= n,
                decoded.len() == n,
                old(p).len() == n,
                forall|j: int| 0 <= j < n ==> decoded[j] == decode_spec(2, old(p)@[j]),
                forall|j: int| 0 <= j < i ==> p@[j] == ternary_decode_spec(old(p)@[j]),
                forall|j: int| i <= j < n ==> p@[j] == decoded[j],
            decreases n - i,
        {
            assert(decoded[i as int] == decode_spec(2, old(p)@[i as int]));
            if p[i] == 3 {
                p.set(i, u64::MAX);
            }
            assert(p@[i as int] == ternary_decode_spec(old(p)@[i as int]));
            i += 1;
        }
        assert(p@ =~= Seq::new(old(p)@.len(), |i: int| ternary_decode_spec(old(p)@[i])));
    }
}

pub proof fn lemma_delta_bounds(bits: nat)
    requires
        1 <= bits <= 62,
    ensures
        4 <= delta_of(bits) <= 0x8000_0000_0000_0000,
        delta_of(bits) == (1u64 << ((64 - bits) as u64)),
        delta_of(bits) * pow2(bits) == word_modulus(),
{
    if bits > 1 {
        lemma_pow2_strictly_increases((64 - bits) as nat, 63);
    }
    lemma2_to64();
    lemma2_to64_rest();
    if 64 - bits > 2 {
        lemma_pow2_strictly_increases(2, (64 - bits) as nat);
    }
    vstd::bits::lemma_u64_shl_is_mul(1, (64 - bits) as u64);
    lemma_pow2_adds((64 - bits) as nat, bits);
}

proof fn lemma_decode_bound(bits: nat, v: u64)
    requires
        1 <= bits <= 62,
    ensures
        v as nat / delta_of(bits) < pow2(bits),
{
    lemma_delta_bounds(bits);
    lemma_div_strictly_bounded(v as int, delta_of(bits) as int, pow2(bits) as int);
    vstd::arithmetic::mul::lemma_mul_is_commutative(delta_of(bits) as int, pow2(bits) as int);
}

proof fn lemma_div_strictly_bounded(x: int, a: int, b: int)
    requires
        a > 0,
        b >= 0,
        0 <= x < a * b,
    ensures
        x / a < b,
{
    lemma_div_by_multiple(b, a);
    vstd::arithmetic::mul::lemma_mul_is_commutative(a, b);
    lemma_div_by_multiple_is_strongly_ordered(x, a * b, b, a);
}

/// Decoding undoes encoding for every plaintext below the plaintext modulus,
/// and still does when the encoded word carries an error `e` with
/// `0 <= e < delta / 2`.
pub proof fn lemma_decode_encode(bits: nat, m: u64, e: int)
    requires
        1 <= bits <= 62,
        m < pow2(bits),
        0 <= e < delta_of(bits) / 2,
    ensures
        decode_spec(bits, wrap(encode_spec(bits, m) + e)) == m,
        decode_spec(bits, encode_spec(bits, m)) == m,
{
    lemma_delta_bounds(bits);
    let d = delta_of(bits) as int;
    let t = pow2(bits) as int;
    assert(m * d <= (t - 1) * d) by (nonlinear_arith)
        requires
            m <= t - 1,
            d > 0,
    ;
    assert((t - 1) * d == t * d - d) by (nonlinear_arith);
    vstd::arithmetic::mul::lemma_mul_is_commutative(d, t);
    assert(0 <= m * d) by (nonlinear_arith)
        requires
            d > 0,
    ;
    lemma_wrap_small(m * d);
    assert(encode_spec(bits, m) == m * d);
    lemma_wrap_small(m * d + e);
    lemma_wrap_small(m * d + e + d / 2);
    lemma_wrap_small(m * d + d / 2);
    lemma_fundamental_div_mod_converse(m * d + e + d / 2, d, m as int, e + d / 2);
    lemma_fundamental_div_mod_converse(m * d + d / 2, d, m as int, d / 2);
    vstd::arithmetic::mul::lemma_mul_is_commutative(m as int, d);
}

} // verus!
